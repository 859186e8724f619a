//! 國泰世華 (Cathay United Bank) account statements — 活存, 投資 and 外幣.
//!
//! Only this bank's format; other institutions get their own sibling module.
//!
//! One row per cash movement, with a running 餘額 column. That running balance
//! is what lets the ledger assert a figure the transactions must agree with.

use vstd::prelude::*;

use crate::amount;
use crate::amount::{Amount, Dec};
use crate::currency;
use crate::currency::Currency;
use crate::date;
use crate::date::Date;
use crate::refusal;
use crate::refusal::Refusal;
use crate::rows;
use crate::statements::bank;
use crate::assertion::BalanceAssertion;
use crate::sort;
use crate::sort::{Key, KeyV};
use crate::statements::bank::{Bank, LineV, MergedV, StatementV};
pub use crate::statements::bank::StatementLine;
use crate::text;
use crate::text::Class;

verus! {

/// Does the printed number `run` fit `want`, a masked digit fitting any?
pub open spec fn fits_masked(run: Seq<char>, want: Seq<char>) -> bool {
    &&& text::utf8_len(run) == text::utf8_len(want)
    &&& forall|i: int|
        0 <= i < run.len() && i < want.len() ==> (#[trigger] run[i] == '*' || run[i] == want[i])
}

/// Does `info` name the account `account_no`? Leading zeros aside, it holds a
/// run of digits and masked digits that fits the number.
pub open spec fn names(info: Seq<char>, account_no: Seq<char>) -> bool {
    let want = text::trimmed_start(account_no, Class::Zero);
    &&& want.len() > 0
    &&& exists|i: int|
        0 <= i < text::runs(info, Class::Masked).len() && fits_masked(
            text::trimmed_start(#[trigger] text::runs(info, Class::Masked)[i], Class::Zero),
            want,
        )
}

/// Does the printed number `run` fit `want`, a masked digit fitting any?
pub fn masked_fits(run: &str, want: &str) -> (r: bool)
    ensures
        r == fits_masked(run@, want@),
{
    if text::width(run) != text::width(want) {
        return false;
    }
    let a = text::chars(run);
    let b = text::chars(want);
    let mut i: usize = 0;
    while i < a.len() && i < b.len()
        invariant
            i <= a@.len(),
            i <= b@.len(),
            a@ == run@,
            b@ == want@,
            forall|j: int| 0 <= j < i ==> (#[trigger] a@[j] == '*' || a@[j] == b@[j]),
        decreases a@.len() - i,
    {
        if a[i] != '*' && a[i] != b[i] {
            assert(!(run@[i as int] == '*' || run@[i as int] == want@[i as int]));
            return false;
        }
        i = i + 1;
    }
    true
}

/// Does 交易資訊 name this account?
///
/// Outgoing rows carry the counterparty in full (`(013)0000123456789012`) but
/// incoming rows mask the middle (`(013)0000123***789012`), so a plain
/// substring test only ever sees one side of an internal transfer. Digit runs
/// are compared positionally instead, treating `*` as a wildcard, with leading
/// zeros stripped from both sides since the export zero-pads inconsistently.
pub fn info_names_account(info: &str, account_no: &str) -> (r: bool)
    ensures
        r == names(info@, account_no@),
{
    let want = text::trim_start(account_no, Class::Zero);
    if want.as_str().is_empty() {
        return false;
    }
    let runs = text::split_runs(info, Class::Masked);
    let ghost all = text::runs(info@, Class::Masked);
    let mut i: usize = 0;
    while i < runs.len()
        invariant
            i <= runs@.len(),
            all == text::runs(info@, Class::Masked),
            all == text::texts(runs@),
            want@ == text::trimmed_start(account_no@, Class::Zero),
            want@.len() > 0,
            forall|j: int|
                0 <= j < i ==> !fits_masked(
                    text::trimmed_start(#[trigger] all[j], Class::Zero),
                    want@,
                ),
        decreases runs@.len() - i,
    {
        let candidate = text::trim_start(runs[i].as_str(), Class::Zero);
        assert(all[i as int] == runs@[i as int]@);
        if masked_fits(candidate.as_str(), want.as_str()) {
            return true;
        }
        i = i + 1;
    }
    false
}

/// Namespaces this bank's `external_ref`s.
pub const REF_PREFIX: &'static str = "cathay-bank:";

/// The `external_ref` of an account's opening, so a second one is a duplicate.
pub fn opening_ref(account: &str, currency: Currency) -> (r: String)
    ensures
        r@ == bank::opening_ref(Bank::Cathay, account@, currency),
{
    let mut out = text::copy(Bank::Cathay.ref_prefix());
    out.append("opening:");
    out.append(account);
    out.append(":");
    out.append(currency.text().as_str());
    out
}

/// The currency code an amount begins with, and the rest.
pub open spec fn prefixed(t: Seq<char>) -> Option<(Seq<char>, Seq<char>)> {
    match text::parted(t, " "@) {
        Some((code, rest)) => if code.len() == 3 && forall|i: int|
            0 <= i < 3 ==> text::of_class(Class::Upper, #[trigger] code[i]) {
            Some((code, rest))
        } else {
            None
        },
        None => None,
    }
}

/// The digits of an amount: what follows its currency, which must be the
/// statement's.
pub open spec fn unprefixed(t: Seq<char>, c: Currency) -> Result<Seq<char>, Seq<char>> {
    match prefixed(t) {
        None => Ok(t),
        Some((code, rest)) => match currency::of_code(code) {
            None => Err("unknown amount currency "@ + text::debug_text(code)),
            Some(other) => if other == c {
                Ok(text::trimmed(rest, Class::White))
            } else {
                Err(
                    "amount "@ + text::debug_text(t) + " is not in the statement currency "@
                        + currency::code(c),
                )
            },
        },
    }
}

/// An amount as the export writes it. `−` (U+2212) is its placeholder for an
/// absent value; a real negative uses an ASCII hyphen, so only the bare
/// placeholder is zero.
pub open spec fn amount_in(s: Seq<char>, c: Currency) -> Result<Dec, Seq<char>> {
    match unprefixed(text::trimmed(s, Class::White), c) {
        Err(e) => Err(e),
        Ok(t) => if t.len() == 0 || t == "−"@ || t == "-"@ {
            Ok(amount::zero())
        } else {
            match amount::spelled(text::kept(t, Class::NotComma)) {
                Some(v) => Ok(v),
                None => Err("unparseable amount "@ + text::debug_text(t)),
            }
        },
    }
}

/// Reads an amount. 外幣 amounts carry a currency prefix (`USD 12.50`).
pub fn parse_amount(s: &str, currency: Currency) -> (r: Result<Amount, Refusal>)
    ensures
        match r {
            Ok(v) => amount_in(s@, currency) == Ok::<Dec, Seq<char>>(v@),
            Err(e) => amount_in(s@, currency) == Err::<Dec, Seq<char>>(e@),
        },
{
    let mut t = text::trim(s, Class::White);
    let ghost whole = t@;
    if let Some((code, rest)) = text::split_once(t.as_str(), " ") {
        if code.as_str().unicode_len() == 3 && text::all_of(code.as_str(), Class::Upper) {
            match Currency::parse(code.as_str()) {
                None => {
                    let mut out = text::copy("unknown amount currency ");
                    out.append(text::quoted(code.as_str()).as_str());
                    return Err(Refusal { message: out });
                },
                Some(other) => {
                    if other != currency {
                        let mut out = text::copy("amount ");
                        out.append(text::quoted(t.as_str()).as_str());
                        out.append(" is not in the statement currency ");
                        out.append(currency.text().as_str());
                        return Err(Refusal { message: out });
                    }
                    t = text::trim(rest.as_str(), Class::White);
                },
            }
        }
    }
    assert(unprefixed(whole, currency) == Ok::<Seq<char>, Seq<char>>(t@));
    if t.as_str().is_empty() || text::same_text(t.as_str(), "−") || text::same_text(
        t.as_str(),
        "-",
    ) {
        return Ok(Amount::zero());
    }
    match Amount::parse(text::keep(t.as_str(), Class::NotComma).as_str()) {
        Some(v) => Ok(v),
        None => {
            let mut out = text::copy("unparseable amount ");
            out.append(text::quoted(t.as_str()).as_str());
            Err(Refusal { message: out })
        },
    }
}

/// The first line of a cell.
pub open spec fn first_line(s: Seq<char>) -> Seq<char> {
    let lines = text::lines(text::trimmed(s, Class::White));
    if lines.len() > 0 {
        text::trimmed(lines[0], Class::White)
    } else {
        Seq::empty()
    }
}

/// The day a cell holds.
pub open spec fn slash_date(s: Seq<char>) -> Option<int> {
    match date::parsed_date(first_line(s), "%Y/%m/%d"@) {
        Some(n) => Some(n as int),
        None => None,
    }
}

/// What a cell is refused with that should hold a day.
pub open spec fn no_date(s: Seq<char>) -> Seq<char> {
    "unparseable date "@ + text::debug_text(first_line(s))
}

/// Reads the day a cell holds, `2024/06/11`, the first line of several.
pub fn parse_slash_date(s: &str) -> (r: Result<Date, Refusal>)
    ensures
        match r {
            Ok(d) => slash_date(s@) == Some(d@),
            Err(e) => slash_date(s@) is None && e@ == no_date(s@),
        },
{
    let lines = text::split_lines(text::trim(s, Class::White).as_str());
    let ghost all = text::lines(text::trimmed(s@, Class::White));
    assert(all.len() == lines@.len());
    let first = if lines.len() > 0 {
        assert(all[0] == lines@[0]@);
        text::trim(lines[0].as_str(), Class::White)
    } else {
        String::new()
    };
    assert(first@ =~= first_line(s@));
    match Date::parse(first.as_str(), "%Y/%m/%d") {
        Some(d) => Ok(d),
        None => {
            let mut out = text::copy("unparseable date ");
            out.append(text::quoted(first.as_str()).as_str());
            Err(Refusal { message: out })
        },
    }
}

/// A cell's words with one space between them; the placeholder is empty.
pub open spec fn cleaned(s: Seq<char>) -> Seq<char> {
    let t = text::joined(text::words(s), " "@);
    if t == "−"@ {
        Seq::empty()
    } else {
        t
    }
}

/// A cell's words with one space between them; the placeholder is empty.
pub fn clean(s: &str) -> (r: String)
    ensures
        r@ == cleaned(s@),
{
    let words = text::split_words(s);
    let ghost all = text::words(s@);
    assert(all.len() == words@.len());
    assert(all.subrange(0, all.len() as int) =~= all);
    let t = text::join(words.as_slice(), 0, words.len(), " ");
    if text::same_text(t.as_str(), "−") {
        let out = String::new();
        assert(out@ =~= Seq::empty());
        out
    } else {
        t
    }
}

/// Where the columns stand: the 外幣 export has a different layout.
pub struct Columns {
    pub book_date: usize,
    pub description: Option<usize>,
    pub withdrawal: usize,
    pub deposit: usize,
    pub balance: usize,
    pub info: Option<usize>,
    pub memo: Option<usize>,
}

/// The first cell at or after `from` that reads `name`.
pub open spec fn column_from(row: Seq<Seq<char>>, name: Seq<char>, from: int) -> Option<int>
    decreases row.len() - from,
{
    if from < 0 || from >= row.len() {
        None
    } else if text::trimmed(row[from], Class::White) == name {
        Some(from)
    } else {
        column_from(row, name, from + 1)
    }
}

/// The first cell that reads `name`.
pub open spec fn column(row: Seq<Seq<char>>, name: Seq<char>) -> Option<int> {
    column_from(row, name, 0)
}

fn column_of(row: &Vec<String>, name: &str) -> (r: Option<usize>)
    ensures
        match r {
            Some(i) => column(text::texts(row@), name@) == Some(i as int),
            None => column(text::texts(row@), name@) is None,
        },
{
    let ghost all = text::texts(row@);
    let mut i: usize = 0;
    while i < row.len()
        invariant
            i <= row@.len(),
            all == text::texts(row@),
            column(all, name@) == column_from(all, name@, i as int),
        decreases row@.len() - i,
    {
        assert(all[i as int] == row@[i as int]@);
        if text::same_text(text::trim(row[i].as_str(), Class::White).as_str(), name) {
            return Some(i);
        }
        i = i + 1;
    }
    None
}

/// What a header is refused with that lacks a column.
pub open spec fn no_column(path: Seq<char>, name: Seq<char>) -> Seq<char> {
    "header of "@ + path + ": no "@ + name + " column"@
}

/// The first column a header needs and lacks.
pub open spec fn missing(row: Seq<Seq<char>>) -> Option<Seq<char>> {
    if column(row, "帳務日期"@) is None {
        Some("帳務日期"@)
    } else if column(row, "提出"@) is None {
        Some("提出"@)
    } else if column(row, "存入"@) is None {
        Some("存入"@)
    } else if column(row, "餘額"@) is None {
        Some("餘額"@)
    } else {
        None
    }
}

spec fn index(i: Option<usize>) -> Option<int> {
    match i {
        Some(i) => Some(i as int),
        None => None,
    }
}

impl Columns {
    /// Do the columns stand where the header `row` has them?
    pub closed spec fn are_of(&self, row: Seq<Seq<char>>) -> bool {
        &&& column(row, "帳務日期"@) == Some(self.book_date as int)
        &&& column(row, "說明"@) == index(self.description)
        &&& column(row, "提出"@) == Some(self.withdrawal as int)
        &&& column(row, "存入"@) == Some(self.deposit as int)
        &&& column(row, "餘額"@) == Some(self.balance as int)
        &&& column(row, "交易資訊"@) == index(self.info)
        &&& column(row, "備註"@) == index(self.memo)
    }

    fn missing(path: &str, name: &str) -> (r: Refusal)
        ensures
            r@ == no_column(path@, name@),
    {
        let mut out = text::copy("header of ");
        out.append(path);
        out.append(": no ");
        out.append(name);
        out.append(" column");
        Refusal { message: out }
    }

    /// The columns of a header.
    pub fn from_header(row: &Vec<String>, path: &str) -> (r: Result<Columns, Refusal>)
        ensures
            match r {
                Ok(c) => missing(text::texts(row@)) is None && c.are_of(text::texts(row@)),
                Err(e) => missing(text::texts(row@)) matches Some(name) && e@ == no_column(
                    path@,
                    name,
                ),
            },
    {
        let book_date = match column_of(row, "帳務日期") {
            Some(i) => i,
            None => {
                return Err(Columns::missing(path, "帳務日期"));
            },
        };
        let withdrawal = match column_of(row, "提出") {
            Some(i) => i,
            None => {
                return Err(Columns::missing(path, "提出"));
            },
        };
        let deposit = match column_of(row, "存入") {
            Some(i) => i,
            None => {
                return Err(Columns::missing(path, "存入"));
            },
        };
        let balance = match column_of(row, "餘額") {
            Some(i) => i,
            None => {
                return Err(Columns::missing(path, "餘額"));
            },
        };
        Ok(
            Columns {
                book_date,
                description: column_of(row, "說明"),
                withdrawal,
                deposit,
                balance,
                info: column_of(row, "交易資訊"),
                memo: column_of(row, "備註"),
            },
        )
    }
}

/// What has been read of an export so far.
#[verifier::ext_equal]
pub struct Scan {
    pub account_no: Seq<char>,
    pub account_kind: Seq<char>,
    pub currency: Currency,
    pub period_end: Option<int>,
    /// The header row.
    pub header: Option<Seq<Seq<char>>>,
    /// Newest first.
    pub lines: Seq<LineV>,
}

/// What follows `至` in the first cell at or after `from` that holds it.
pub open spec fn range_tail(row: Seq<Seq<char>>, from: int) -> Option<Seq<char>>
    decreases row.len() - from,
{
    if from < 0 || from >= row.len() {
        None
    } else {
        match text::parted(row[from], "至"@) {
            Some((_, tail)) => Some(tail),
            None => range_tail(row, from + 1),
        }
    }
}

/// What a row before the header adds: the end of the period the export covers,
/// and the header itself, the account or the currency.
pub open spec fn head_row(s: Scan, row: Seq<Seq<char>>, path: Seq<char>) -> Result<
    Scan,
    Seq<char>,
> {
    let f0 = text::trimmed(rows::cell(row, 0), Class::White);
    let s = match range_tail(row, 0) {
        Some(tail) => Scan {
            period_end: slash_date(text::trimmed(tail, Class::OutsideDate)),
            ..s
        },
        None => s,
    };
    if f0 == "交易日期"@ {
        match missing(row) {
            Some(name) => Err(no_column(path, name)),
            None => Ok(Scan { header: Some(row), ..s }),
        }
    } else if s.account_no.len() == 0 && text::holds(f0, " "@) {
        let parts = text::words(f0);
        Ok(
            Scan {
                account_no: rows::cell(parts, 0),
                account_kind: rows::cell(parts, 1),
                ..s
            },
        )
    } else {
        match text::stripped(f0, "幣別："@) {
            Some(rest) => {
                let code = text::trimmed(rest, Class::White);
                match currency::of_code(code) {
                    Some(c) => Ok(Scan { currency: c, ..s }),
                    None => Err("unknown statement currency "@ + text::debug_text(code)),
                }
            },
            None => Ok(s),
        }
    }
}

/// The text in a column that may be absent.
pub open spec fn text_in(row: Seq<Seq<char>>, column: Option<int>) -> Seq<char> {
    match column {
        Some(i) => cleaned(rows::cell(row, i)),
        None => cleaned(Seq::empty()),
    }
}

/// The cell a row's book date stands in; a row that lacks it has its first.
pub open spec fn book_date_cell(row: Seq<Seq<char>>, column: int) -> Seq<char> {
    if column < row.len() {
        row[column]
    } else {
        text::trimmed(rows::cell(row, 0), Class::White)
    }
}

/// The line of a data row.
pub open spec fn line_in(row: Seq<Seq<char>>, header: Seq<Seq<char>>, c: Currency) -> Result<
    LineV,
    Seq<char>,
> {
    let dated = book_date_cell(row, column(header, "帳務日期"@)->0);
    match slash_date(dated) {
        None => Err(no_date(dated)),
        Some(book_date) => match amount_in(rows::cell(row, column(header, "提出"@)->0), c) {
            Err(e) => Err(e),
            Ok(withdrawal) => match amount_in(rows::cell(row, column(header, "存入"@)->0), c) {
                Err(e) => Err(e),
                Ok(deposit) => match amount_in(rows::cell(row, column(header, "餘額"@)->0), c) {
                    Err(e) => Err(e),
                    Ok(balance) => Ok(
                        LineV {
                            book_date,
                            description: text_in(row, column(header, "說明"@)),
                            withdrawal,
                            deposit,
                            balance,
                            info: text_in(row, column(header, "交易資訊"@)),
                            memo: text_in(row, column(header, "備註"@)),
                        },
                    ),
                },
            },
        },
    }
}

/// What a row adds. Data rows start with a date; the trailer rows (提出/存入
/// totals) do not.
pub open spec fn step(s: Scan, row: Seq<Seq<char>>, path: Seq<char>) -> Result<Scan, Seq<char>> {
    match s.header {
        None => head_row(s, row, path),
        Some(header) => if row.len() <= column(header, "餘額"@)->0 || slash_date(
            text::trimmed(rows::cell(row, 0), Class::White),
        ) is None {
            Ok(s)
        } else {
            match line_in(row, header, s.currency) {
                Err(e) => Err(e),
                Ok(line) => Ok(Scan { lines: s.lines.push(line), ..s }),
            }
        },
    }
}

/// What has been read once `read` are.
pub open spec fn scanned(
    read: Seq<Result<Seq<Seq<char>>, Seq<char>>>,
    path: Seq<char>,
) -> Result<Scan, Seq<char>>
    decreases read.len(),
{
    if read.len() == 0 {
        Ok(
            Scan {
                account_no: Seq::empty(),
                account_kind: Seq::empty(),
                currency: Currency::TWD,
                period_end: None,
                header: None,
                lines: Seq::empty(),
            },
        )
    } else {
        match scanned(read.drop_last(), path) {
            Err(e) => Err(e),
            Ok(s) => match read.last() {
                Err(e) => Err(e),
                Ok(row) => step(s, row, path),
            },
        }
    }
}

/// The statement the rows of an export hold. The export is newest first.
pub open spec fn statement_in(
    read: Seq<Result<Seq<Seq<char>>, Seq<char>>>,
    path: Seq<char>,
) -> Result<StatementV, Seq<char>> {
    match scanned(read, path) {
        Err(e) => Err(e),
        Ok(s) => if s.lines.len() == 0 {
            Err("no statement rows found in "@ + path)
        } else {
            Ok(
                StatementV {
                    bank: Bank::Cathay,
                    account_no: s.account_no,
                    account_kind: s.account_kind,
                    currency: s.currency,
                    period_end: s.period_end,
                    periods: Seq::empty(),
                    lines: s.lines.reverse(),
                },
            )
        },
    }
}

/// What a download of this bank is: one without stated periods.
#[derive(Debug)]
pub struct BankStatement {
    pub account_no: String,
    pub account_kind: String,
    pub currency: Currency,
    /// End of the period the export covers, from the `(自 … 至 …)` header.
    pub period_end: Option<Date>,
    /// Oldest first.
    pub lines: Vec<StatementLine>,
}

impl View for BankStatement {
    type V = StatementV;

    open spec fn view(&self) -> StatementV {
        StatementV {
            bank: Bank::Cathay,
            account_no: self.account_no@,
            account_kind: self.account_kind@,
            currency: self.currency,
            period_end: date::opt(self.period_end),
            periods: Seq::empty(),
            lines: bank::line_views(self.lines@),
        }
    }
}

/// What has been read of an export so far.
struct Reader {
    account_no: String,
    account_kind: String,
    currency: Currency,
    period_end: Option<Date>,
    columns: Option<Columns>,
    header: Ghost<Seq<Seq<char>>>,
    lines: Vec<StatementLine>,
}

impl View for Reader {
    type V = Scan;

    closed spec fn view(&self) -> Scan {
        Scan {
            account_no: self.account_no@,
            account_kind: self.account_kind@,
            currency: self.currency,
            period_end: date::opt(self.period_end),
            header: match self.columns {
                Some(_) => Some(self.header@),
                None => None,
            },
            lines: bank::line_views(self.lines@),
        }
    }
}

spec fn read_as(r: Result<Reader, Refusal>) -> Result<Scan, Seq<char>> {
    match r {
        Ok(s) => Ok(s@),
        Err(e) => Err(e@),
    }
}

fn range_tail_of(row: &Vec<String>) -> (r: Option<String>)
    ensures
        match r {
            Some(tail) => range_tail(text::texts(row@), 0) == Some(tail@),
            None => range_tail(text::texts(row@), 0) is None,
        },
{
    let ghost all = text::texts(row@);
    let mut i: usize = 0;
    while i < row.len()
        invariant
            i <= row@.len(),
            all == text::texts(row@),
            range_tail(all, 0) == range_tail(all, i as int),
        decreases row@.len() - i,
    {
        assert(all[i as int] == row@[i as int]@);
        if let Some((_, tail)) = text::split_once(row[i].as_str(), "至") {
            return Some(tail);
        }
        i = i + 1;
    }
    None
}

fn text_at(row: &Vec<String>, column: Option<usize>) -> (r: String)
    ensures
        r@ == text_in(text::texts(row@), index(column)),
{
    match column {
        Some(i) => clean(rows::cell_of(row, i)),
        None => {
            proof {
                reveal_strlit("");
                assert(""@ =~= Seq::empty());
            }
            clean("")
        },
    }
}

fn read_line(row: &Vec<String>, columns: &Columns, c: Currency, header: Ghost<Seq<Seq<char>>>) -> (r:
    Result<StatementLine, Refusal>)
    requires
        columns.are_of(header@),
    ensures
        match r {
            Ok(l) => line_in(text::texts(row@), header@, c) == Ok::<LineV, Seq<char>>(l@),
            Err(e) => line_in(text::texts(row@), header@, c) == Err::<LineV, Seq<char>>(e@),
        },
{
    let first = text::trim(rows::cell_of(row, 0), Class::White);
    let dated = if columns.book_date < row.len() {
        text::copy(rows::cell_of(row, columns.book_date))
    } else {
        first
    };
    assert(dated@ == book_date_cell(text::texts(row@), columns.book_date as int));
    let book_date = match parse_slash_date(dated.as_str()) {
        Ok(d) => d,
        Err(e) => {
            return Err(e);
        },
    };
    let withdrawal = match parse_amount(rows::cell_of(row, columns.withdrawal), c) {
        Ok(v) => v,
        Err(e) => {
            return Err(e);
        },
    };
    let deposit = match parse_amount(rows::cell_of(row, columns.deposit), c) {
        Ok(v) => v,
        Err(e) => {
            return Err(e);
        },
    };
    let balance = match parse_amount(rows::cell_of(row, columns.balance), c) {
        Ok(v) => v,
        Err(e) => {
            return Err(e);
        },
    };
    Ok(
        StatementLine {
            book_date,
            description: text_at(row, columns.description),
            withdrawal,
            deposit,
            balance,
            info: text_at(row, columns.info),
            memo: text_at(row, columns.memo),
        },
    )
}

impl Reader {
    /// The columns are those of the header row.
    spec fn sound(&self) -> bool {
        self.columns matches Some(c) ==> c.are_of(self.header@)
    }

    fn read_head(self, row: &Vec<String>, path: &str) -> (r: Result<Reader, Refusal>)
        requires
            self.columns is None,
        ensures
            read_as(r) == head_row(self@, text::texts(row@), path@),
            r matches Ok(s) ==> s.sound(),
    {
        let ghost all = text::texts(row@);
        let f0 = text::trim(rows::cell_of(row, 0), Class::White);
        let mut next = self;
        if let Some(tail) = range_tail_of(row) {
            let end = text::trim(tail.as_str(), Class::OutsideDate);
            next.period_end = match parse_slash_date(end.as_str()) {
                Ok(d) => Some(d),
                Err(_) => None,
            };
        }
        if text::same_text(f0.as_str(), "交易日期") {
            return match Columns::from_header(row, path) {
                Ok(c) => {
                    next.columns = Some(c);
                    next.header = Ghost(all);
                    Ok(next)
                },
                Err(e) => Err(e),
            };
        }
        if next.account_no.as_str().is_empty() && text::contains(f0.as_str(), " ") {
            let parts = text::split_words(f0.as_str());
            next.account_no = text::copy(rows::cell_of(&parts, 0));
            next.account_kind = text::copy(rows::cell_of(&parts, 1));
            return Ok(next);
        }
        if let Some(rest) = text::strip_prefix(f0.as_str(), "幣別：") {
            let code = text::trim(rest.as_str(), Class::White);
            return match Currency::parse(code.as_str()) {
                Some(c) => {
                    next.currency = c;
                    Ok(next)
                },
                None => {
                    let mut out = text::copy("unknown statement currency ");
                    out.append(text::quoted(code.as_str()).as_str());
                    Err(Refusal { message: out })
                },
            };
        }
        Ok(next)
    }

    fn read(self, row: &Vec<String>, path: &str) -> (r: Result<Reader, Refusal>)
        requires
            self.sound(),
        ensures
            read_as(r) == step(self@, text::texts(row@), path@),
            r matches Ok(s) ==> s.sound(),
    {
        let ghost all = text::texts(row@);
        assert(all.len() == row@.len());
        if self.columns.is_none() {
            return self.read_head(row, path);
        }
        let read = match &self.columns {
            Some(c) => {
                let f0 = text::trim(rows::cell_of(row, 0), Class::White);
                if row.len() <= c.balance || parse_slash_date(f0.as_str()).is_err() {
                    None
                } else {
                    Some(read_line(row, c, self.currency, self.header))
                }
            },
            None => None,
        };
        let mut next = self;
        match read {
            None => Ok(next),
            Some(Err(e)) => Err(e),
            Some(Ok(line)) => {
                next.lines.push(line);
                assert(bank::line_views(next.lines@) =~= bank::line_views(self.lines@).push(line@));
                Ok(next)
            },
        }
    }
}

proof fn scan_refused_stays(
    read: Seq<Result<Seq<Seq<char>>, Seq<char>>>,
    path: Seq<char>,
    n: int,
)
    requires
        0 <= n <= read.len(),
        scanned(read.take(n), path) is Err,
    ensures
        scanned(read, path) == scanned(read.take(n), path),
    decreases read.len(),
{
    if n == read.len() {
        assert(read.take(n) =~= read);
    } else {
        assert(read.drop_last().take(n) =~= read.take(n));
        scan_refused_stays(read.drop_last(), path, n);
    }
}

/// Reads the statement the rows of an export hold.
pub fn from_rows(read: &Vec<Result<Vec<String>, String>>, path: &str) -> (r: Result<
    BankStatement,
    Refusal,
>)
    ensures
        match r {
            Ok(s) => statement_in(rows::row_views(read@), path@) == Ok::<StatementV, Seq<char>>(s@)
                && s@.lines.len() > 0,
            Err(e) => statement_in(rows::row_views(read@), path@) == Err::<StatementV, Seq<char>>(
                e@,
            ),
        },
{
    let ghost all = rows::row_views(read@);
    let mut reader = Reader {
        account_no: String::new(),
        account_kind: String::new(),
        currency: Currency::TWD,
        period_end: None,
        columns: None,
        header: Ghost(Seq::empty()),
        lines: Vec::new(),
    };
    assert(reader@.account_no =~= Seq::empty());
    assert(reader@.account_kind =~= Seq::empty());
    assert(reader@.lines =~= Seq::empty());
    let mut i: usize = 0;
    while i < read.len()
        invariant
            i <= read@.len(),
            all == rows::row_views(read@),
            reader.sound(),
            scanned(all.take(i as int), path@) == Ok::<Scan, Seq<char>>(reader@),
        decreases read@.len() - i,
    {
        assert(all[i as int] == rows::row_view(read@[i as int]));
        assert(all.take(i as int + 1).drop_last() =~= all.take(i as int));
        match &read[i] {
            Err(e) => {
                proof {
                    scan_refused_stays(all, path@, i as int + 1);
                }
                return Err(Refusal { message: text::copy(e.as_str()) });
            },
            Ok(row) => match reader.read(row, path) {
                Ok(next) => {
                    reader = next;
                },
                Err(e) => {
                    proof {
                        scan_refused_stays(all, path@, i as int + 1);
                    }
                    return Err(e);
                },
            },
        }
        i = i + 1;
    }
    assert(all.take(i as int) =~= all);
    let ghost scan = reader@;
    assert(scan.lines.len() == reader.lines@.len());
    if reader.lines.len() == 0 {
        let mut out = text::copy("no statement rows found in ");
        out.append(path);
        return Err(Refusal { message: out });
    }
    let mut newest_first = reader.lines;
    let mut lines: Vec<StatementLine> = Vec::new();
    let ghost mut n: int = 0;
    while newest_first.len() > 0
        invariant
            0 <= n <= scan.lines.len(),
            bank::line_views(newest_first@) == scan.lines.take(scan.lines.len() - n),
            bank::line_views(lines@) == scan.lines.reverse().take(n),
        decreases newest_first@.len(),
    {
        let ghost left = newest_first@;
        let ghost done = lines@;
        assert(bank::line_views(left).len() == left.len());
        let line = newest_first.pop().unwrap();
        assert(line@ == bank::line_views(left).last());
        assert(bank::line_views(newest_first@) =~= bank::line_views(left).drop_last());
        assert(bank::line_views(left).drop_last() =~= scan.lines.take(scan.lines.len() - n - 1));
        lines.push(line);
        assert(bank::line_views(lines@) =~= bank::line_views(done).push(line@));
        assert(scan.lines.reverse().take(n + 1) =~= scan.lines.reverse().take(n).push(
            scan.lines.reverse()[n],
        ));
        proof {
            n = n + 1;
        }
    }
    assert(bank::line_views(newest_first@).len() == 0);
    assert(scan.lines.reverse().take(n) =~= scan.lines.reverse());
    Ok(
        BankStatement {
            account_no: reader.account_no,
            account_kind: reader.account_kind,
            currency: reader.currency,
            period_end: reader.period_end,
            lines,
        },
    )
}

/// Reads the statement an export's file at `path` holds.
pub fn load(bytes: &[u8], path: &str) -> (r: Result<BankStatement, Refusal>)
    ensures
        match r {
            Ok(s) => statement_in(rows::csv_rows(bytes@, None), path@) == Ok::<
                StatementV,
                Seq<char>,
            >(s@) && s@.lines.len() > 0,
            Err(e) => statement_in(rows::csv_rows(bytes@, None), path@) == Err::<
                StatementV,
                Seq<char>,
            >(e@),
        },
{
    let read = rows::read_rows(bytes, None);
    from_rows(&read, path)
}

/// The date to assert a download's closing balance on.
pub open spec fn assert_date(s: StatementV) -> int {
    let after_last = if s.lines.len() > 0 {
        match date::after(s.lines.last().book_date) {
            Some(day) => day,
            None => s.lines.last().book_date,
        }
    } else {
        bank::epoch()
    };
    match s.period_end {
        Some(end) => if end >= after_last {
            end
        } else {
            after_last
        },
        None => after_last,
    }
}

impl BankStatement {
    /// The statement as the importers share it.
    pub fn shared(self) -> (r: bank::BankStatement)
        ensures
            r@ == self@,
    {
        let out = bank::BankStatement {
            bank: Bank::Cathay,
            account_no: self.account_no,
            account_kind: self.account_kind,
            currency: self.currency,
            period_end: self.period_end,
            periods: Vec::new(),
            lines: self.lines,
        };
        assert(bank::period_views(out.periods@) =~= Seq::empty());
        out
    }

    /// Balance before the first line, reconstructed from the oldest row.
    pub fn opening_balance(&self) -> (r: Amount)
        requires
            self@.lines.len() > 0 ==> bank::line_in_range(self@.lines[0]),
        ensures
            bank::opening_balance(self@) == Some(r@),
    {
        if self.lines.len() > 0 {
            assert(self@.lines[0] == self.lines@[0]@);
            self.lines[0].checked_before().unwrap()
        } else {
            Amount::zero()
        }
    }

    pub fn closing_balance(&self) -> (r: Amount)
        ensures
            r@ == bank::closing_balance(self@),
    {
        if self.lines.len() > 0 {
            let last: usize = self.lines.len() - 1;
            assert(self@.lines.last() == self.lines@[last as int]@);
            self.lines[last].balance
        } else {
            Amount::zero()
        }
    }

    /// Dedup key per line, shared by the freeze bake and importers.
    ///
    /// Not the line index: statements get re-split per year, which shifts
    /// indices. Same-day out-and-back sequences (−X, +X, −X) repeat the running
    /// balance, so repeats of an identical key get `:2`, `:3`. The suffix is
    /// counted from the first line of the day this statement holds, so a
    /// statement starting mid-day numbers them differently; the importer's
    /// balance-chain check is what catches that.
    pub fn dedup_refs(&self) -> (r: Vec<String>)
        requires
            bank::deltas_in_range(self@.lines),
        ensures
            text::texts(r@) == bank::refs(
                bank::prefix(Bank::Cathay),
                self@.account_no,
                self@.lines,
            ),
            bank::has_deltas(self@.lines),
    {
        bank::line_refs(
            Bank::Cathay.ref_prefix(),
            self.account_no.as_str(),
            &self.lines,
        ).unwrap()
    }

    /// Debits the bank itself undid, as `(debit, reversal)` line indices.
    ///
    /// A 錯誤更正 row carries a negative withdrawal that cancels an earlier
    /// debit to the same counterparty on the same book date. Neither row is a
    /// movement anyone recorded, so each pair nets to nothing rather than
    /// landing in both uncategorised buckets. A reversal with no such debit is
    /// left unpaired and falls through like any other line.
    pub fn reversals(&self) -> (r: Vec<(usize, usize)>)
        ensures
            bank::pair_views(r@) == bank::reversals(Bank::Cathay, self@.lines),
            forall|i: int|
                0 <= i < r@.len() ==> (#[trigger] r@[i]).0 < r@[i].1 && r@[i].1 < self@.lines.len(),
    {
        bank::reversed_lines(Bank::Cathay, &self.lines)
    }

    /// Drops lines before `date` (their balance becomes the opening); returns
    /// how many.
    pub fn trim_before(&mut self, date: Date) -> (r: usize)
        ensures
            final(self)@ == bank::cut(old(self)@, date@),
            r == bank::first_after(old(self)@.lines, date@ - 1),
    {
        let ghost before = *self;
        let day: i32 = date.number();
        let n: usize = bank::position_after(&self.lines, day - 1);
        let kept = self.lines.split_off(n);
        self.lines = kept;
        assert(self@.lines =~= before@.lines.skip(n as int));
        assert(self@.periods =~= bank::cut(before@, date@).periods);
        n
    }

    /// Date to assert the closing balance on. Beancount asserts at the start of
    /// the day, so this must fall after the final transaction.
    pub fn assert_date(&self) -> (r: Date)
        ensures
            r@ == assert_date(self@),
    {
        let after_last = if self.lines.len() > 0 {
            let last: usize = self.lines.len() - 1;
            assert(self@.lines.last() == self.lines@[last as int]@);
            match self.lines[last].book_date.succ_opt() {
                Some(day) => day,
                None => self.lines[last].book_date,
            }
        } else {
            Date::from_number(719163).unwrap()
        };
        match self.period_end {
            Some(end) => if end.number() >= after_last.number() {
                end
            } else {
                after_last
            },
            None => after_last,
        }
    }

    /// The last day this download holds in full. A TWD export may have been
    /// made partway through the end of its stated range, so the day before.
    /// A 外幣 export states no range; its last line's balance is taken as
    /// current, so a second download made later that same day is refused as
    /// contradicting it.
    pub fn settled_through(&self) -> (r: Date)
        requires
            self@.lines.len() > 0,
            bank::is_settled(self@),
        ensures
            r@ == bank::settled_through(self@),
    {
        match self.period_end {
            Some(end) => end.pred_opt().unwrap(),
            None => {
                let last: usize = self.lines.len() - 1;
                assert(self@.lines.last() == self.lines@[last as int]@);
                self.lines[last].book_date
            },
        }
    }

    /// The statement's figures for `account`, over the lines dated after
    /// `after` (the ones before are in the account's opening), closing on
    /// [`Self::settled_through`]. `None` when no line is. Asserting a day the
    /// download may not hold in full would refuse the next one that does.
    pub fn assertion(&self, account: &str, after: Date) -> (r: Option<BalanceAssertion>)
        requires
            bank::has_figure(self@, after@),
        ensures
            match r {
                Some(a) => bank::download_figure(
                    account@,
                    self@.currency,
                    self@.lines,
                    bank::settled_through(self@),
                    after@,
                ) == Some(a@),
                None => bank::download_figure(
                    account@,
                    self@.currency,
                    self@.lines,
                    bank::settled_through(self@),
                    after@,
                ) is None,
            },
    {
        if bank::position_after(&self.lines, after.number()) >= self.lines.len() {
            return None;
        }
        bank::download_figure_of(account, self.currency, &self.lines, self.settled_through(), after)
    }

    /// Balance before the first line, if it is within range.
    fn checked_opening(&self) -> (r: Option<Amount>)
        ensures
            amount::opt(r) == bank::opening_balance(self@),
    {
        if self.lines.len() > 0 {
            assert(self@.lines[0] == self.lines@[0]@);
            self.lines[0].checked_before()
        } else {
            Some(Amount::zero())
        }
    }
}

/// One account's exports in one currency, joined.
#[derive(Debug)]
pub struct Merged {
    pub statement: BankStatement,
    /// The files, by name.
    pub paths: Vec<String>,
    /// How many of `statement.lines` each of `paths` contributed, in order.
    pub spans: Vec<usize>,
}

impl View for Merged {
    type V = MergedV;

    open spec fn view(&self) -> MergedV {
        MergedV {
            statement: self.statement@,
            paths: text::texts(self.paths@),
            spans: bank::span_views(self.spans@),
        }
    }
}

impl Merged {
    /// The joined statements as the importers share them.
    pub fn shared(self) -> (r: bank::Merged)
        ensures
            r@ == self@,
    {
        bank::Merged { statement: self.statement.shared(), paths: self.paths, spans: self.spans }
    }
}

pub open spec fn merged_views(v: Seq<Merged>) -> Seq<MergedV> {
    v.map_values(|m: Merged| m@)
}

/// A day that may be absent, which then comes before every day.
pub open spec fn or_never(day: Option<int>) -> int {
    match day {
        Some(day) => day,
        None => date::MIN_DAY - 1,
    }
}

/// What an export is sorted by: its account and its currency, then its first
/// line's day, its last line's and the end of its period. Adjacent exports can
/// share a boundary book date, so ties break on where each ends.
pub open spec fn export_key(s: StatementV) -> KeyV {
    KeyV {
        text: s.account_no,
        numbers: (
            currency::rank(s.currency),
            s.lines[0].book_date,
            s.lines.last().book_date,
            or_never(s.period_end),
        ),
    }
}

pub open spec fn export_keys(v: Seq<(StatementV, Seq<char>)>) -> Seq<KeyV> {
    v.map_values(|e: (StatementV, Seq<char>)| export_key(e.0))
}

/// Exports with the files they come from.
pub open spec fn file_views(v: Seq<(BankStatement, String)>) -> Seq<(StatementV, Seq<char>)> {
    v.map_values(|e: (BankStatement, String)| (e.0@, e.1@))
}

/// Do the two lines say the same, amounts by their value?
pub open spec fn same_line(a: LineV, b: LineV) -> bool {
    &&& a.book_date == b.book_date
    &&& a.description == b.description
    &&& amount::equal(a.withdrawal, b.withdrawal)
    &&& amount::equal(a.deposit, b.deposit)
    &&& amount::equal(a.balance, b.balance)
    &&& a.info == b.info
    &&& a.memo == b.memo
}

/// Do the lines `a` and `b` say the same as far as both go?
pub open spec fn agree(a: Seq<LineV>, b: Seq<LineV>) -> bool {
    forall|i: int| 0 <= i < a.len() && i < b.len() ==> same_line(#[trigger] a[i], b[i])
}

/// `spans` with the last `n` lines taken out of them.
pub open spec fn spans_without(spans: Seq<int>, n: int) -> Seq<int>
    decreases spans.len(),
{
    if spans.len() == 0 {
        spans
    } else {
        let last = spans.last();
        let d = if n < last {
            n
        } else {
            last
        };
        spans_without(spans.drop_last(), n - d).push(last - d)
    }
}

/// The lines of `m` from the day `next` starts.
pub open spec fn held(m: StatementV, next: StatementV) -> Seq<LineV> {
    m.lines.skip(bank::first_after(m.lines, next.lines[0].book_date - 1))
}

/// `m` with the next export. It must follow on with no balance gap; where one
/// of the two holds exactly the other's lines from the day `next` starts, the
/// longer is kept.
pub open spec fn followed(m: MergedV, next: StatementV, path: Seq<char>) -> Result<
    MergedV,
    Seq<char>,
> {
    let s = m.statement;
    let first = next.lines[0];
    let last = s.lines.last();
    let again = held(s, next);
    let named = s.account_no + " "@ + currency::code(s.currency) + ": "@;
    if again.len() > 0 && agree(again, next.lines) {
        if next.lines.len() > again.len() {
            Ok(
                MergedV {
                    statement: StatementV {
                        lines: s.lines.take(s.lines.len() - again.len()) + next.lines,
                        period_end: next.period_end,
                        ..s
                    },
                    paths: m.paths.push(path),
                    spans: spans_without(m.spans, again.len() as int).push(
                        next.lines.len() as int,
                    ),
                },
            )
        } else {
            Ok(MergedV { paths: m.paths.push(path), spans: m.spans.push(0), ..m })
        }
    } else if first.book_date < last.book_date {
        Err(
            named + path + " overlaps the export before it and disagrees with it (it starts "@
                + date::printed(first.book_date) + ", the other ends "@ + date::printed(
                last.book_date,
            ) + ")"@,
        )
    } else {
        match bank::opening_balance(next) {
            None => Err(refusal::out_of_range()),
            Some(opening) => if amount::equal(opening, last.balance) {
                Ok(
                    MergedV {
                        statement: StatementV {
                            lines: s.lines + next.lines,
                            period_end: next.period_end,
                            ..s
                        },
                        paths: m.paths.push(path),
                        spans: m.spans.push(next.lines.len() as int),
                    },
                )
            } else if again.len() == 0 {
                Err(
                    named + "gap between "@ + m.paths.last() + " and "@ + path + " — balance "@
                        + amount::printed(last.balance) + " on "@ + date::printed(last.book_date)
                        + " but "@ + amount::printed(opening) + " before "@ + date::printed(
                        first.book_date,
                    ) + "; an export is missing"@,
                )
            } else {
                Err(
                    named + m.paths.last() + " and "@ + path + " both hold "@ + date::printed(
                        first.book_date,
                    ) + " and disagree about it"@,
                )
            },
        }
    }
}

/// The exports in order, joined per account and currency.
pub open spec fn exports_joined(exports: Seq<(StatementV, Seq<char>)>) -> Result<
    Seq<MergedV>,
    Seq<char>,
>
    decreases exports.len(),
{
    if exports.len() == 0 {
        Ok(Seq::empty())
    } else {
        match exports_joined(exports.drop_last()) {
            Err(e) => Err(e),
            Ok(merged) => {
                let (s, path) = exports.last();
                if merged.len() > 0 && merged.last().statement.account_no == s.account_no
                    && merged.last().statement.currency == s.currency {
                    match followed(merged.last(), s, path) {
                        Err(e) => Err(e),
                        Ok(m) => Ok(merged.drop_last().push(m)),
                    }
                } else {
                    Ok(
                        merged.push(
                            MergedV {
                                statement: s,
                                paths: seq![path],
                                spans: seq![s.lines.len() as int],
                            },
                        ),
                    )
                }
            },
        }
    }
}

/// The exports of each account and currency joined into one statement.
pub open spec fn merged(v: Seq<(StatementV, Seq<char>)>) -> Result<Seq<MergedV>, Seq<char>> {
    exports_joined(sort::arranged(v, sort::order(export_keys(v))))
}

/// Does every export have a line?
pub open spec fn active(v: Seq<(StatementV, Seq<char>)>) -> bool {
    forall|i: int| 0 <= i < v.len() ==> (#[trigger] v[i]).0.lines.len() > 0
}

/// All of `spans` added up.
pub open spec fn span_total(spans: Seq<int>) -> int
    decreases spans.len(),
{
    if spans.len() == 0 {
        0
    } else {
        span_total(spans.drop_last()) + spans.last()
    }
}

/// Does every file have a span, and do they make up the lines?
pub open spec fn accounted(m: MergedV) -> bool {
    &&& m.paths.len() == m.spans.len() > 0
    &&& span_total(m.spans) == m.statement.lines.len() > 0
    &&& forall|i: int| 0 <= i < m.spans.len() ==> 0 <= #[trigger] m.spans[i]
}

proof fn span_total_grows(spans: Seq<int>, n: int)
    ensures
        span_total(spans.push(n)) == span_total(spans) + n,
{
    assert(spans.push(n).drop_last() =~= spans);
}

proof fn span_total_nonnegative(spans: Seq<int>)
    requires
        forall|i: int| 0 <= i < spans.len() ==> 0 <= #[trigger] spans[i],
    ensures
        0 <= span_total(spans),
        forall|i: int| 0 <= i < spans.len() ==> #[trigger] spans[i] <= span_total(spans),
    decreases spans.len(),
{
    if spans.len() > 0 {
        span_total_nonnegative(spans.drop_last());
        assert forall|i: int| 0 <= i < spans.len() implies #[trigger] spans[i] <= span_total(
            spans,
        ) by {
            if i < spans.len() - 1 {
                assert(spans[i] == spans.drop_last()[i]);
            }
        }
    }
}

proof fn spans_lose(spans: Seq<int>, n: int)
    requires
        forall|i: int| 0 <= i < spans.len() ==> 0 <= #[trigger] spans[i],
        0 <= n <= span_total(spans),
    ensures
        span_total(spans_without(spans, n)) == span_total(spans) - n,
        spans_without(spans, n).len() == spans.len(),
        forall|i: int|
            0 <= i < spans.len() ==> 0 <= #[trigger] spans_without(spans, n)[i] <= spans[i],
    decreases spans.len(),
{
    if spans.len() > 0 {
        let last = spans.last();
        let d = if n < last {
            n
        } else {
            last
        };
        let shorter = spans.drop_last();
        span_total_nonnegative(shorter);
        assert(last >= 0);
        spans_lose(shorter, n - d);
        span_total_grows(spans_without(shorter, n - d), last - d);
        assert forall|i: int| 0 <= i < spans.len() implies 0 <= #[trigger] spans_without(
            spans,
            n,
        )[i] <= spans[i] by {
            if i < shorter.len() {
                assert(spans_without(spans, n)[i] == spans_without(shorter, n - d)[i]);
                assert(shorter[i] == spans[i]);
            }
        }
    }
}

/// Joining keeps every line accounted for by the file it came from.
pub proof fn followed_is_accounted(m: MergedV, next: StatementV, path: Seq<char>)
    requires
        accounted(m),
        next.lines.len() > 0,
        followed(m, next, path) is Ok,
    ensures
        accounted(followed(m, next, path)->Ok_0),
{
    let r = followed(m, next, path)->Ok_0;
    let s = m.statement;
    let n = held(s, next).len() as int;
    first_after_bound(s.lines, next.lines[0].book_date - 1);
    spans_lose(m.spans, n);
    span_total_grows(spans_without(m.spans, n), next.lines.len() as int);
    span_total_grows(m.spans, 0);
    span_total_grows(m.spans, next.lines.len() as int);
}

proof fn first_after_bound(lines: Seq<LineV>, day: int)
    ensures
        0 <= bank::first_after(lines, day) <= lines.len(),
    decreases lines.len(),
{
    if lines.len() > 0 && lines[0].book_date <= day {
        first_after_bound(lines.skip(1), day);
    }
}

fn same_line_as(a: &StatementLine, b: &StatementLine) -> (r: bool)
    ensures
        r == same_line(a@, b@),
{
    a.book_date.number() == b.book_date.number() && text::same_text(
        a.description.as_str(),
        b.description.as_str(),
    ) && a.withdrawal.equals(&b.withdrawal) && a.deposit.equals(&b.deposit) && a.balance.equals(
        &b.balance,
    ) && text::same_text(a.info.as_str(), b.info.as_str()) && text::same_text(
        a.memo.as_str(),
        b.memo.as_str(),
    )
}

fn lines_agree(a: &Vec<StatementLine>, from: usize, b: &Vec<StatementLine>) -> (r: bool)
    requires
        from <= a@.len(),
    ensures
        r == agree(bank::line_views(a@).skip(from as int), bank::line_views(b@)),
{
    let ghost x = bank::line_views(a@).skip(from as int);
    let ghost y = bank::line_views(b@);
    let mut i: usize = 0;
    while i < a.len() - from && i < b.len()
        invariant
            from <= a@.len(),
            i <= a@.len() - from,
            i <= b@.len(),
            x == bank::line_views(a@).skip(from as int),
            y == bank::line_views(b@),
            forall|j: int| 0 <= j < i ==> same_line(#[trigger] x[j], y[j]),
        decreases b@.len() - i,
    {
        assert(x[i as int] == a@[from + i]@);
        assert(y[i as int] == b@[i as int]@);
        if !same_line_as(&a[from + i], &b[i]) {
            return false;
        }
        i = i + 1;
    }
    true
}

/// Takes the last `n` lines out of the spans.
fn drop_from_spans(spans: Vec<usize>, n: usize) -> (r: Vec<usize>)
    ensures
        bank::span_views(r@) == spans_without(bank::span_views(spans@), n as int),
    decreases spans@.len(),
{
    let ghost all = bank::span_views(spans@);
    assert(all.len() == spans@.len());
    let mut rest = spans;
    match rest.pop() {
        None => {
            assert(bank::span_views(rest@) =~= all);
            rest
        },
        Some(last) => {
            assert(bank::span_views(rest@) =~= all.drop_last());
            assert(all.last() == last);
            let d: usize = if n < last {
                n
            } else {
                last
            };
            let mut out = drop_from_spans(rest, n - d);
            let ghost shorter = out@;
            out.push(last - d);
            assert(bank::span_views(out@) =~= bank::span_views(shorter).push(last - d));
            out
        },
    }
}

fn named_of(s: &BankStatement) -> (r: String)
    ensures
        r@ == s@.account_no + " "@ + currency::code(s@.currency) + ": "@,
{
    let mut out = text::copy(s.account_no.as_str());
    out.append(" ");
    out.append(s.currency.text().as_str());
    out.append(": ");
    out
}

fn follow(m: Merged, next: BankStatement, path: String) -> (r: Result<Merged, Refusal>)
    requires
        accounted(m@),
        next@.lines.len() > 0,
    ensures
        match r {
            Ok(v) => followed(m@, next@, path@) == Ok::<MergedV, Seq<char>>(v@) && accounted(v@),
            Err(e) => followed(m@, next@, path@) == Err::<MergedV, Seq<char>>(e@),
        },
{
    proof {
        if followed(m@, next@, path@) is Ok {
            followed_is_accounted(m@, next@, path@);
        }
        assert(m@.paths.len() == m.paths@.len());
        assert(m@.statement.lines.len() == m.statement.lines@.len());
        assert(next@.lines.len() == next.lines@.len());
    }
    let end: usize = m.statement.lines.len() - 1;
    let last_date = m.statement.lines[end].book_date;
    let last_balance = m.statement.lines[end].balance;
    assert(m@.statement.lines.last() == m.statement.lines@[end as int]@);
    let first_date = next.lines[0].book_date;
    assert(next@.lines[0] == next.lines@[0]@);
    let before: i32 = first_date.number() - 1;
    let from: usize = bank::position_after(&m.statement.lines, before);
    let again: usize = m.statement.lines.len() - from;
    let count: usize = next.lines.len();
    let ghost whole = m@.statement.lines;
    assert(held(m@.statement, next@) == whole.skip(from as int));
    let opening = next.checked_opening();
    if again > 0 && lines_agree(&m.statement.lines, from, &next.lines) {
        let mut statement = m.statement;
        let mut paths = m.paths;
        let mut spans = m.spans;
        if count > again {
            spans = drop_from_spans(spans, again);
            let ghost kept = spans@;
            statement.lines.truncate(from);
            let ghost cut = statement.lines@;
            assert(bank::line_views(cut) =~= whole.take(from as int));
            let mut lines = next.lines;
            statement.lines.append(&mut lines);
            statement.period_end = next.period_end;
            spans.push(count);
            assert(bank::line_views(statement.lines@) =~= whole.take(from as int) + next@.lines);
            assert(bank::span_views(spans@) =~= bank::span_views(kept).push(count as int));
        } else {
            let ghost kept = spans@;
            spans.push(0);
            assert(bank::span_views(spans@) =~= bank::span_views(kept).push(0));
        }
        paths.push(path);
        assert(text::texts(paths@) =~= m@.paths.push(path@));
        return Ok(Merged { statement, paths, spans });
    }
    let at: usize = m.paths.len() - 1;
    assert(m@.paths.last() == m.paths@[at as int]@);
    let mut named = named_of(&m.statement);
    if first_date.number() < last_date.number() {
        named.append(path.as_str());
        named.append(" overlaps the export before it and disagrees with it (it starts ");
        named.append(first_date.text().as_str());
        named.append(", the other ends ");
        named.append(last_date.text().as_str());
        named.append(")");
        return Err(Refusal { message: named });
    }
    let opening = match opening {
        Some(opening) => opening,
        None => {
            return Err(Refusal::out_of_range());
        },
    };
    if opening.equals(&last_balance) {
        let mut statement = m.statement;
        let mut paths = m.paths;
        let mut spans = m.spans;
        let mut lines = next.lines;
        statement.lines.append(&mut lines);
        statement.period_end = next.period_end;
        paths.push(path);
        spans.push(count);
        assert(bank::line_views(statement.lines@) =~= whole + next@.lines);
        assert(text::texts(paths@) =~= m@.paths.push(path@));
        assert(bank::span_views(spans@) =~= m@.spans.push(count as int));
        return Ok(Merged { statement, paths, spans });
    }
    if again == 0 {
        named.append("gap between ");
        named.append(m.paths[at].as_str());
        named.append(" and ");
        named.append(path.as_str());
        named.append(" — balance ");
        named.append(last_balance.text().as_str());
        named.append(" on ");
        named.append(last_date.text().as_str());
        named.append(" but ");
        named.append(opening.text().as_str());
        named.append(" before ");
        named.append(first_date.text().as_str());
        named.append("; an export is missing");
    } else {
        named.append(m.paths[at].as_str());
        named.append(" and ");
        named.append(path.as_str());
        named.append(" both hold ");
        named.append(first_date.text().as_str());
        named.append(" and disagree about it");
    }
    Err(Refusal { message: named })
}

proof fn joined_refused_stays(exports: Seq<(StatementV, Seq<char>)>, n: int)
    requires
        0 <= n <= exports.len(),
        exports_joined(exports.take(n)) is Err,
    ensures
        exports_joined(exports) == exports_joined(exports.take(n)),
    decreases exports.len(),
{
    if n == exports.len() {
        assert(exports.take(n) =~= exports);
    } else {
        assert(exports.drop_last().take(n) =~= exports.take(n));
        joined_refused_stays(exports.drop_last(), n);
    }
}

fn export_key_of(s: &BankStatement) -> (r: Key)
    requires
        s@.lines.len() > 0,
    ensures
        r@ == export_key(s@),
{
    assert(s@.lines.len() == s.lines@.len());
    let end: usize = s.lines.len() - 1;
    assert(s@.lines[0] == s.lines@[0]@);
    assert(s@.lines.last() == s.lines@[end as int]@);
    Key {
        text: text::copy(s.account_no.as_str()),
        numbers: (
            s.currency.rank() as i64,
            s.lines[0].book_date.number() as i64,
            s.lines[end].book_date.number() as i64,
            match s.period_end {
                Some(day) => day.number() as i64,
                None => -95746130,
            },
        ),
    }
}

/// Joins the exports of each account and currency into one statement. They
/// must follow on with no balance gap, or a missing download would hide as an
/// unexplained jump.
///
/// Every download is kept, so one can re-cover days another already holds: a
/// partial download and the full one that replaced it. Where one holds exactly
/// the other's lines from the day the later one starts, the longer is kept;
/// any other overlap is an error.
pub fn merge(statements: Vec<(BankStatement, String)>) -> (r: Result<Vec<Merged>, Refusal>)
    requires
        active(file_views(statements@)),
    ensures
        match r {
            Ok(v) => merged(file_views(statements@)) == Ok::<Seq<MergedV>, Seq<char>>(
                merged_views(v@),
            ) && forall|i: int| 0 <= i < v@.len() ==> accounted((#[trigger] v@[i])@),
            Err(e) => merged(file_views(statements@)) == Err::<Seq<MergedV>, Seq<char>>(e@),
        },
{
    let ghost given = statements@;
    let ghost all = file_views(given);
    let ghost keys = export_keys(all);
    let mut rest = statements;
    let mut keyed: Vec<(Key, (BankStatement, String))> = Vec::new();
    let ghost mut k: int = 0;
    assert(rest@ =~= given.skip(0));
    while rest.len() > 0
        invariant
            0 <= k <= given.len(),
            rest@ == given.skip(k),
            all == file_views(given),
            keys == export_keys(all),
            active(all),
            keyed@.len() == k,
            forall|i: int|
                0 <= i < k ==> (#[trigger] keyed@[i]).1 == given[i] && keyed@[i].0@ == keys[i],
        decreases rest@.len(),
    {
        let (s, path) = rest.remove(0);
        assert((s, path) == given[k]);
        assert(all[k] == (s@, path@));
        let key = export_key_of(&s);
        keyed.push((key, (s, path)));
        assert(rest@ =~= given.skip(k + 1));
        proof {
            k = k + 1;
        }
    }
    assert(sort::keys_of(keyed@) =~= keys);
    let ghost ord = sort::order(keys);
    let mut exports = sort::sort(keyed);
    let ghost sorted = sort::arranged(all, ord);
    proof {
        sort::order_is_a_permutation(keys);
        assert forall|i: int| 0 <= i < exports@.len() implies (
        (#[trigger] exports@[i]).1.0@,
        exports@[i].1.1@,
    ) == sorted[i] && sorted[i].0.lines.len() > 0 by {
            assert(exports@[i] == keyed@[ord[i]]);
            assert(sorted[i] == all[ord[i]]);
        }
    }
    let mut out: Vec<Merged> = Vec::new();
    let ghost exports_all = exports@;
    let ghost mut n: int = 0;
    assert(exports@ =~= exports_all.skip(0));
    assert(merged_views(out@) =~= Seq::empty());
    while exports.len() > 0
        invariant
            0 <= n <= exports_all.len(),
            exports@ == exports_all.skip(n),
            exports_all.len() == sorted.len(),
            merged(file_views(statements@)) == exports_joined(sorted),
            forall|i: int|
                0 <= i < exports_all.len() ==> (
                    (#[trigger] exports_all[i]).1.0@,
                    exports_all[i].1.1@,
                ) == sorted[i] && sorted[i].0.lines.len() > 0,
            exports_joined(sorted.take(n)) == Ok::<Seq<MergedV>, Seq<char>>(merged_views(out@)),
            forall|i: int| 0 <= i < out@.len() ==> accounted((#[trigger] out@[i])@),
        decreases exports@.len(),
    {
        let (_, (s, path)) = exports.remove(0);
        let ghost done = out@;
        proof {
            assert(exports_all[n].1 == (s, path));
            assert(sorted[n] == (s@, path@));
            assert(sorted.take(n + 1).drop_last() =~= sorted.take(n));
            assert(sorted.take(n + 1).last() == sorted[n]);
            assert(exports@ =~= exports_all.skip(n + 1));
        }
        let joins = if out.len() > 0 {
            let last: usize = out.len() - 1;
            assert(merged_views(out@).last() == out@[last as int]@);
            text::same_text(
                out[last].statement.account_no.as_str(),
                s.account_no.as_str(),
            ) && out[last].statement.currency == s.currency
        } else {
            false
        };
        if joins {
            let m = out.pop().unwrap();
            assert(merged_views(out@) =~= merged_views(done).drop_last());
            assert(accounted(done[done.len() - 1]@));
            match follow(m, s, path) {
                Ok(m) => {
                    let ghost popped = out@;
                    out.push(m);
                    assert(merged_views(out@) =~= merged_views(popped).push(m@));
                },
                Err(e) => {
                    proof {
                        joined_refused_stays(sorted, n + 1);
                    }
                    return Err(e);
                },
            }
        } else {
            let count: usize = s.lines.len();
            assert(count == s@.lines.len());
            let mut paths: Vec<String> = Vec::new();
            let mut spans: Vec<usize> = Vec::new();
            paths.push(path);
            spans.push(count);
            assert(text::texts(paths@) =~= seq![path@]);
            assert(bank::span_views(spans@) =~= seq![s@.lines.len() as int]);
            let m = Merged { statement: s, paths, spans };
            proof {
                span_total_grows(Seq::empty(), count as int);
                assert(Seq::<int>::empty().push(count as int) =~= m@.spans);
            }
            out.push(m);
            assert(merged_views(out@) =~= merged_views(done).push(m@));
        }
        proof {
            n = n + 1;
        }
    }
    assert(sorted.take(n) =~= sorted);
    Ok(out)
}

/// The statements the export files `files` hold, each its bytes and its path,
/// with their paths. Refused as the first file that cannot be read is.
pub open spec fn exports_in(files: Seq<(Seq<u8>, Seq<char>)>) -> Result<
    Seq<(StatementV, Seq<char>)>,
    Seq<char>,
>
    decreases files.len(),
{
    if files.len() == 0 {
        Ok(Seq::empty())
    } else {
        match exports_in(files.drop_last()) {
            Err(e) => Err(e),
            Ok(before) => match statement_in(
                rows::csv_rows(files.last().0, None),
                files.last().1,
            ) {
                Err(e) => Err(e),
                Ok(s) => Ok(before.push((s, files.last().1))),
            },
        }
    }
}

/// The export files' statements, joined per account and currency.
pub open spec fn merged_in(files: Seq<(Seq<u8>, Seq<char>)>) -> Result<Seq<MergedV>, Seq<char>> {
    match exports_in(files) {
        Err(e) => Err(e),
        Ok(v) => merged(v),
    }
}

pub open spec fn export_views(v: Seq<(Vec<u8>, String)>) -> Seq<(Seq<u8>, Seq<char>)> {
    v.map_values(|e: (Vec<u8>, String)| (e.0@, e.1@))
}

proof fn refused_exports_stay(files: Seq<(Seq<u8>, Seq<char>)>, n: int)
    requires
        0 <= n <= files.len(),
        exports_in(files.take(n)) is Err,
    ensures
        exports_in(files) == exports_in(files.take(n)),
    decreases files.len(),
{
    if n == files.len() {
        assert(files.take(n) =~= files);
    } else {
        assert(files.drop_last().take(n) =~= files.take(n));
        refused_exports_stay(files.drop_last(), n);
    }
}

/// Reads the export files and joins the exports of each account and currency
/// into one statement. They must follow on with no balance gap, or a missing
/// download would hide as an unexplained jump.
pub fn load_merged(files: &Vec<(Vec<u8>, String)>) -> (r: Result<Vec<Merged>, Refusal>)
    ensures
        match r {
            Ok(v) => merged_in(export_views(files@)) == Ok::<Seq<MergedV>, Seq<char>>(
                merged_views(v@),
            ) && forall|i: int| 0 <= i < v@.len() ==> accounted((#[trigger] v@[i])@),
            Err(e) => merged_in(export_views(files@)) == Err::<Seq<MergedV>, Seq<char>>(e@),
        },
{
    let ghost all = export_views(files@);
    let mut out: Vec<(BankStatement, String)> = Vec::new();
    let mut i: usize = 0;
    assert(file_views(out@) =~= Seq::<(StatementV, Seq<char>)>::empty());
    while i < files.len()
        invariant
            0 <= i <= files@.len(),
            all == export_views(files@),
            exports_in(all.take(i as int)) == Ok::<Seq<(StatementV, Seq<char>)>, Seq<char>>(
                file_views(out@),
            ),
            active(file_views(out@)),
        decreases files@.len() - i,
    {
        let ghost before = out@;
        proof {
            assert(all[i as int] == (files@[i as int].0@, files@[i as int].1@));
            assert(all.take(i as int + 1).drop_last() =~= all.take(i as int));
            assert(all.take(i as int + 1).last() == all[i as int]);
        }
        match load(files[i].0.as_slice(), files[i].1.as_str()) {
            Ok(s) => {
                let path = text::copy(files[i].1.as_str());
                out.push((s, path));
                assert(file_views(out@) =~= file_views(before).push((s@, path@)));
            },
            Err(e) => {
                proof {
                    refused_exports_stay(all, i as int + 1);
                }
                return Err(e);
            },
        }
        i = i + 1;
    }
    assert(all.take(i as int) =~= all);
    merge(out)
}

/// Does the header name a column at `i`, and not before it?
pub open spec fn stands_at(header: Seq<Seq<char>>, name: Seq<char>, i: int) -> bool {
    &&& 0 <= i < header.len()
    &&& text::trimmed(header[i], Class::White) == name
    &&& forall|j: int| 0 <= j < i ==> text::trimmed(#[trigger] header[j], Class::White) != name
}

proof fn column_stands(header: Seq<Seq<char>>, name: Seq<char>, i: int, from: int)
    requires
        stands_at(header, name, i),
        0 <= from <= i,
    ensures
        column_from(header, name, from) == Some(i),
    decreases i - from,
{
    if from < i {
        column_stands(header, name, i, from + 1);
    }
}

/// A line is what the cells of its row say under the header's columns: withdrawn
/// under 提出, deposited under 存入, and the balance under 餘額.
pub proof fn a_line_reads_its_columns(
    row: Seq<Seq<char>>,
    header: Seq<Seq<char>>,
    c: Currency,
    day: int,
    out: int,
    inn: int,
    left: int,
)
    requires
        line_in(row, header, c) is Ok,
        stands_at(header, "帳務日期"@, day),
        stands_at(header, "提出"@, out),
        stands_at(header, "存入"@, inn),
        stands_at(header, "餘額"@, left),
        day < row.len(),
    ensures
        ({
            let l = line_in(row, header, c)->Ok_0;
            &&& slash_date(row[day]) == Some(l.book_date)
            &&& amount_in(rows::cell(row, out), c) == Ok::<Dec, Seq<char>>(l.withdrawal)
            &&& amount_in(rows::cell(row, inn), c) == Ok::<Dec, Seq<char>>(l.deposit)
            &&& amount_in(rows::cell(row, left), c) == Ok::<Dec, Seq<char>>(l.balance)
        }),
{
    column_stands(header, "帳務日期"@, day, 0);
    column_stands(header, "提出"@, out, 0);
    column_stands(header, "存入"@, inn, 0);
    column_stands(header, "餘額"@, left, 0);
}

/// What a row says of itself stands under 說明, 交易資訊 and 備註.
pub proof fn a_line_reads_its_texts(
    row: Seq<Seq<char>>,
    header: Seq<Seq<char>>,
    c: Currency,
    name: int,
    info: int,
    memo: int,
)
    requires
        line_in(row, header, c) is Ok,
        stands_at(header, "說明"@, name),
        stands_at(header, "交易資訊"@, info),
        stands_at(header, "備註"@, memo),
    ensures
        ({
            let l = line_in(row, header, c)->Ok_0;
            &&& l.description == cleaned(rows::cell(row, name))
            &&& l.info == cleaned(rows::cell(row, info))
            &&& l.memo == cleaned(rows::cell(row, memo))
        }),
{
    column_stands(header, "說明"@, name, 0);
    column_stands(header, "交易資訊"@, info, 0);
    column_stands(header, "備註"@, memo, 0);
}

/// An amount is what its digits spell without commas; a currency before it must
/// be the statement's, and nothing or a dash alone is 0.
pub proof fn an_amount_is_what_is_spelled(s: Seq<char>, c: Currency)
    requires
        amount_in(s, c) is Ok,
    ensures
        ({
            let t = text::trimmed(s, Class::White);
            let a = amount_in(s, c)->Ok_0;
            let digits = match prefixed(t) {
                Some((_, rest)) => text::trimmed(rest, Class::White),
                None => t,
            };
            &&& prefixed(t) matches Some((code, _)) ==> currency::of_code(code) == Some(c)
            &&& digits.len() == 0 || digits == "−"@ || digits == "-"@ ==> amount::worth(a) == 0
            &&& digits.len() > 0 && digits != "−"@ && digits != "-"@ ==> amount::spelled(
                text::kept(digits, Class::NotComma),
            ) == Some(a)
        }),
{
    amount::zero_worth(amount::zero());
}

/// Is a row a data row: long enough, and dated in its first cell?
pub open spec fn is_data(row: Seq<Seq<char>>, header: Seq<Seq<char>>) -> bool {
    row.len() > column(header, "餘額"@)->0 && slash_date(
        text::trimmed(rows::cell(row, 0), Class::White),
    ) is Some
}

/// A data row behind the header is one line more, and any other row there is
/// none.
pub proof fn a_data_row_is_a_line(
    read: Seq<Result<Seq<Seq<char>>, Seq<char>>>,
    row: Seq<Seq<char>>,
    path: Seq<char>,
)
    requires
        scanned(read, path) matches Ok(s) && s.header is Some,
        scanned(read.push(Ok(row)), path) is Ok,
    ensures
        ({
            let was = scanned(read, path)->Ok_0;
            let now = scanned(read.push(Ok(row)), path)->Ok_0;
            let header = was.header->0;
            &&& now.header == was.header
            &&& now.account_no == was.account_no
            &&& now.currency == was.currency
            &&& now.period_end == was.period_end
            &&& !is_data(row, header) ==> now.lines == was.lines
            &&& is_data(row, header) ==> (line_in(row, header, was.currency) matches Ok(l)
                && now.lines == was.lines.push(l))
        }),
{
    assert(read.push(Ok(row)).drop_last() =~= read);
}

/// The export lists the newest row first; the statement's lines stand oldest
/// first.
pub proof fn lines_stand_oldest_first(
    read: Seq<Result<Seq<Seq<char>>, Seq<char>>>,
    path: Seq<char>,
    i: int,
)
    requires
        statement_in(read, path) is Ok,
        0 <= i < statement_in(read, path)->Ok_0.lines.len(),
    ensures
        ({
            let s = scanned(read, path)->Ok_0;
            let st = statement_in(read, path)->Ok_0;
            &&& st.lines.len() == s.lines.len()
            &&& st.lines[i] == s.lines[s.lines.len() - 1 - i]
            &&& st.bank == Bank::Cathay
            &&& st.account_no == s.account_no
            &&& st.currency == s.currency
            &&& st.period_end == s.period_end
            &&& st.periods.len() == 0
        }),
{
}

/// A joined export adds the lines of the next one behind those before it, where
/// they carry its balance on; where the two hold the same lines of the last
/// days, the longer stands. The account and the currency stay.
pub proof fn a_joined_export_carries_on(m: MergedV, next: StatementV, path: Seq<char>)
    requires
        followed(m, next, path) is Ok,
        next.lines.len() > 0,
        m.statement.lines.len() > 0,
    ensures
        ({
            let r = followed(m, next, path)->Ok_0;
            let (was, now) = (m.statement.lines, r.statement.lines);
            let n = was.len() - held(m.statement, next).len();
            &&& r.paths == m.paths.push(path)
            &&& r.statement.account_no == m.statement.account_no
            &&& r.statement.currency == m.statement.currency
            &&& 0 <= n <= was.len()
            &&& now == was || (now == was.take(n) + next.lines && r.statement.period_end
                == next.period_end && forall|i: int|
                n <= i < was.len() ==> same_line(#[trigger] was[i], next.lines[i - n])) || (now
                == was + next.lines && r.statement.period_end == next.period_end && (
            bank::balance_before(next.lines[0]) matches Some(b) && amount::worth(b)
                == amount::worth(was.last().balance)))
        }),
{
    let was = m.statement.lines;
    let again = held(m.statement, next);
    let n = was.len() - again.len();
    first_after_bound(was, next.lines[0].book_date - 1);
    assert(again =~= was.skip(n));
    if again.len() > 0 && agree(again, next.lines) && next.lines.len() > again.len() {
        assert forall|i: int| n <= i < was.len() implies same_line(
            #[trigger] was[i],
            next.lines[i - n],
        ) by {
            assert(again[i - n] == was[i]);
        }
    }
}

} // verus!
