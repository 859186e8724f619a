//! The journal: a flat CSV that is the single source of truth of reconciled
//! history. Freezing writes it once reconciliation passes and the loader reads
//! it into the database; it stays deliberately dumb — no chart, no
//! reconciliation — so that load path carries none of that complexity.
//!
//! One row per posting. Transaction-level fields (`date`, `payee`, `narration`,
//! `external_ref`) repeat across a group's rows; `tags` is per-posting.
//!
//! Beside it, [`assertions_path`] holds the balance assertions the journal was
//! verified against, one row per assertion, so the loader can hand them to the
//! check. A separate file keeps the journal one row per posting.

use vstd::prelude::*;

use crate::amount;
use crate::amount::{Amount, Dec};
use crate::currency::Currency;
use crate::date::Date;
use crate::model::Source;
use crate::refusal::Refusal;
use crate::text;

verus! {

/// The reserved posting tag marking a securities-placeholder leg. Freezing
/// stamps it, the loader reads it back to note the account, and it marks the
/// leg to be replaced with real positions later.
pub const PLACEHOLDER_TAG: &'static str = "securities-placeholder";

/// One posting of a transaction.
#[derive(Debug, Clone, PartialEq)]
pub struct Posting {
    /// Groups the legs of one transaction together.
    pub group: u64,
    pub source: Source,
    pub date: Date,
    pub payee: Option<String>,
    pub narration: String,
    pub external_ref: Option<String>,
    pub account: String,
    pub amount: Amount,
    pub currency: Currency,
    pub tags: Option<String>,
}

/// A parsed journal.
#[derive(Debug)]
pub struct Journal {
    pub postings: Vec<Posting>,
}

/// One row of the file; field order is the file's column order. An absent
/// narration reads as an empty one.
#[derive(Debug, Clone, PartialEq)]
pub struct Row {
    pub group: u64,
    pub source: Source,
    pub date: Date,
    pub account: String,
    pub amount: Amount,
    pub currency: Currency,
    pub payee: Option<String>,
    pub narration: Option<String>,
    pub external_ref: Option<String>,
    pub tags: Option<String>,
}

/// What a posting of the journal is.
#[verifier::ext_equal]
pub struct EntryV {
    pub group: u64,
    pub source: Source,
    pub date: int,
    pub payee: Option<Seq<char>>,
    pub narration: Seq<char>,
    pub external_ref: Option<Seq<char>>,
    pub account: Seq<char>,
    pub amount: Dec,
    pub currency: Currency,
    pub tags: Option<Seq<char>>,
}

/// What a row of the file is.
#[verifier::ext_equal]
pub struct RowV {
    pub group: u64,
    pub source: Source,
    pub date: int,
    pub account: Seq<char>,
    pub amount: Dec,
    pub currency: Currency,
    pub payee: Option<Seq<char>>,
    pub narration: Option<Seq<char>>,
    pub external_ref: Option<Seq<char>>,
    pub tags: Option<Seq<char>>,
}

impl View for Posting {
    type V = EntryV;

    open spec fn view(&self) -> EntryV {
        EntryV {
            group: self.group,
            source: self.source,
            date: self.date@,
            payee: text::opt(self.payee),
            narration: self.narration@,
            external_ref: text::opt(self.external_ref),
            account: self.account@,
            amount: self.amount@,
            currency: self.currency,
            tags: text::opt(self.tags),
        }
    }
}

impl View for Row {
    type V = RowV;

    open spec fn view(&self) -> RowV {
        RowV {
            group: self.group,
            source: self.source,
            date: self.date@,
            account: self.account@,
            amount: self.amount@,
            currency: self.currency,
            payee: text::opt(self.payee),
            narration: text::opt(self.narration),
            external_ref: text::opt(self.external_ref),
            tags: text::opt(self.tags),
        }
    }
}

pub open spec fn entry_views(v: Seq<Posting>) -> Seq<EntryV> {
    v.map_values(|p: Posting| p@)
}

pub open spec fn row_views(v: Seq<Row>) -> Seq<RowV> {
    v.map_values(|r: Row| r@)
}

/// The posting a row holds.
pub open spec fn entry_of(r: RowV) -> EntryV {
    EntryV {
        group: r.group,
        source: r.source,
        date: r.date,
        payee: r.payee,
        narration: match r.narration {
            Some(n) => n,
            None => Seq::empty(),
        },
        external_ref: r.external_ref,
        account: r.account,
        amount: r.amount,
        currency: r.currency,
        tags: r.tags,
    }
}

/// The row a posting is written as.
pub open spec fn row_of(p: EntryV) -> RowV {
    RowV {
        group: p.group,
        source: p.source,
        date: p.date,
        account: p.account,
        amount: p.amount,
        currency: p.currency,
        payee: p.payee,
        narration: Some(p.narration),
        external_ref: p.external_ref,
        tags: p.tags,
    }
}

pub open spec fn entries_of(rows: Seq<RowV>) -> Seq<EntryV> {
    rows.map_values(|r: RowV| entry_of(r))
}

pub open spec fn rows_of(entries: Seq<EntryV>) -> Seq<RowV> {
    entries.map_values(|p: EntryV| row_of(p))
}

/// The journal the rows of a file hold, which must not be empty.
pub open spec fn journal_in(rows: Seq<RowV>, path: Seq<char>) -> Result<Seq<EntryV>, Seq<char>> {
    if rows.len() == 0 {
        Err("journal "@ + path + " contains no rows"@)
    } else {
        Ok(entries_of(rows))
    }
}

/// A copy of an optional text.
pub(crate) fn copy_opt(s: &Option<String>) -> (r: Option<String>)
    ensures
        text::opt(r) == text::opt(*s),
{
    match s {
        Some(s) => Some(text::copy(s.as_str())),
        None => None,
    }
}

impl Posting {
    /// The row the posting is written as.
    pub fn row(&self) -> (r: Row)
        ensures
            r@ == row_of(self@),
    {
        Row {
            group: self.group,
            source: self.source,
            date: self.date,
            account: text::copy(self.account.as_str()),
            amount: self.amount,
            currency: self.currency,
            payee: copy_opt(&self.payee),
            narration: Some(text::copy(self.narration.as_str())),
            external_ref: copy_opt(&self.external_ref),
            tags: copy_opt(&self.tags),
        }
    }
}

/// The rows the journal is written as, postings in the order they were
/// reconciled in.
pub fn write(journal: &Journal) -> (r: Vec<Row>)
    ensures
        row_views(r@) == rows_of(entry_views(journal.postings@)),
{
    let ghost all = rows_of(entry_views(journal.postings@));
    let mut out: Vec<Row> = Vec::new();
    let mut i: usize = 0;
    assert(row_views(out@) =~= all.take(0));
    while i < journal.postings.len()
        invariant
            i <= journal.postings@.len(),
            all == rows_of(entry_views(journal.postings@)),
            row_views(out@) == all.take(i as int),
        decreases journal.postings@.len() - i,
    {
        let ghost before = out@;
        let row = journal.postings[i].row();
        out.push(row);
        assert(row_views(out@) =~= row_views(before).push(row@));
        assert(all.take(i as int + 1) =~= all.take(i as int).push(all[i as int]));
        i = i + 1;
    }
    assert(all.take(i as int) =~= all);
    out
}

/// The journal the rows of the file at `path` hold.
pub fn read(rows: Vec<Row>, path: &str) -> (r: Result<Journal, Refusal>)
    ensures
        match r {
            Ok(j) => journal_in(row_views(rows@), path@) == Ok::<Seq<EntryV>, Seq<char>>(
                entry_views(j.postings@),
            ),
            Err(e) => journal_in(row_views(rows@), path@) == Err::<Seq<EntryV>, Seq<char>>(e@),
        },
{
    let ghost given = rows@;
    let ghost all = entries_of(row_views(given));
    assert(row_views(given).len() == given.len());
    if rows.len() == 0 {
        let mut out = text::copy("journal ");
        out.append(path);
        out.append(" contains no rows");
        return Err(Refusal { message: out });
    }
    let mut rest = rows;
    let mut postings: Vec<Posting> = Vec::new();
    let ghost mut n: int = 0;
    assert(entry_views(postings@) =~= all.take(0));
    assert(rest@ =~= given.skip(0));
    while rest.len() > 0
        invariant
            0 <= n <= given.len(),
            rest@ == given.skip(n),
            all == entries_of(row_views(given)),
            entry_views(postings@) == all.take(n),
        decreases rest@.len(),
    {
        let ghost before = postings@;
        let row = rest.remove(0);
        assert(row == given[n]);
        assert(rest@ =~= given.skip(n + 1));
        let narration = match row.narration {
            Some(n) => n,
            None => {
                let none = String::new();
                assert(none@ =~= Seq::empty());
                none
            },
        };
        let p = Posting {
            group: row.group,
            source: row.source,
            date: row.date,
            payee: row.payee,
            narration,
            external_ref: row.external_ref,
            account: row.account,
            amount: row.amount,
            currency: row.currency,
            tags: row.tags,
        };
        assert(p@ =~= all[n]);
        postings.push(p);
        assert(entry_views(postings@) =~= entry_views(before).push(p@));
        assert(all.take(n + 1) =~= all.take(n).push(all[n]));
        proof {
            n = n + 1;
        }
    }
    assert(all.take(n) =~= all);
    Ok(Journal { postings })
}

/// What is read back of a journal's rows is the journal.
pub proof fn journal_reads_back(entries: Seq<EntryV>, path: Seq<char>)
    requires
        entries.len() > 0,
    ensures
        journal_in(rows_of(entries), path) == Ok::<Seq<EntryV>, Seq<char>>(entries),
{
    assert(entries_of(rows_of(entries)) =~= entries);
}

/// What `Path::with_extension` makes of a path, given an extension that is not
/// empty and holds no separator.
pub uninterp spec fn path_with_extension(path: Seq<char>, extension: Seq<char>) -> Seq<char>;

/// Does `s` hold neither `c` nor `d`?
pub open spec fn free_of(s: Seq<char>, c: char, d: char) -> bool {
    forall|i: int| 0 <= i < s.len() ==> #[trigger] s[i] != c && s[i] != d
}

/// Do all systems cut the path into the same names? Some take `\` for a
/// separator, and `:` and a leading `//` for the end and the start of a drive.
pub open spec fn is_portable(path: Seq<char>) -> bool {
    &&& free_of(path, '\\', ':')
    &&& !(path.len() > 1 && path[0] == '/' && path[1] == '/')
}

/// `std::path::Path::with_extension`, on a path's text and an extension that
/// is not empty and holds no separator: what follows the last `.` of a file's
/// name is replaced. How other paths are treated is left to
/// `path_with_extension`, and nothing is said of those that systems cut
/// differently.
#[verifier::external_body]
fn with_extension(path: &str, extension: &str) -> (r: String)
    requires
        extension@.len() > 0,
        free_of(extension@, '/', '\\'),
    ensures
        is_portable(path@) ==> r@ == path_with_extension(path@, extension@),
        is_portable(path@) ==> forall|stem: Seq<char>, ext: Seq<char>|
            path@ == #[trigger] (stem + seq!['.'] + ext) && stem.len() > 0 && stem.last() != '/'
                && stem.last() != '.' && free_of(ext, '.', '/') ==> r@ == stem + seq!['.'] + extension@,
{
    std::path::Path::new(path).with_extension(extension).to_string_lossy().into_owned()
}

/// `ledger/journal.csv` → `ledger/journal.assertions.csv`.
pub fn assertions_path(journal: &str) -> (r: String)
    ensures
        is_portable(journal@) ==> r@ == path_with_extension(journal@, "assertions.csv"@),
        is_portable(journal@) ==> forall|stem: Seq<char>, ext: Seq<char>|
            journal@ == #[trigger] (stem + seq!['.'] + ext) && stem.len() > 0 && stem.last() != '/'
                && stem.last() != '.' && free_of(ext, '.', '/') ==> r@ == stem + seq!['.'] + "assertions.csv"@,
{
    proof {
        reveal_strlit("assertions.csv");
    }
    with_extension(journal, "assertions.csv")
}

} // verus!
