//! LINE Bank (連線商業銀行) monthly statements, read from the PDF's text as
//! `pdftotext -raw` lays it out.
//!
//! The PDF also carries a decorative layer of sample rows dated 2019; real rows
//! are dot-dated (`2026.01.06`), the sample ones slash-dated, so they are
//! dropped by that. A row's 備註 may wrap onto the lines after it. Only the
//! first line of a row prints a balance, and the account number is masked, so
//! it is taken from the statement's folder (`raw/line-bank/活存-<account>/`).

use vstd::prelude::*;

use crate::amount;
use crate::amount::{Amount, Dec};
use crate::currency;
use crate::currency::Currency;
use crate::date;
use crate::date::Date;
use crate::refusal;
use crate::refusal::Refusal;
use crate::statements::bank;
use crate::sort;
use crate::sort::{Key, KeyV};
use crate::statements::bank::{
    Bank, BankStatement, LineV, Merged, MergedV, Period, PeriodV, StatementLine, StatementV,
};
use crate::statements::cathay;
use crate::text;
use crate::text::Class;

verus! {

/// The 交易說明 of a transfer the bank called back.
pub const CANCEL: &'static str = "取消轉帳";

/// What the bank puts before the cancelled transfer's own 備註.
pub const CANCEL_REMARK: &'static str = "取消.";

/// Does the printed number `run` name `account_no`: by four digits or more of
/// its end, or in full but for leading zeros, masked only in front?
pub open spec fn run_names(run: Seq<char>, account_no: Seq<char>) -> bool {
    let digits = text::trimmed_start(run, Class::Star);
    &&& digits.len() >= 4
    &&& !text::holds(digits, seq!['*'])
    &&& text::ends(account_no, digits) || text::trimmed_start(digits, Class::Zero)
        == text::trimmed_start(account_no, Class::Zero)
}

/// Does `remark` hold a printed number that names `account_no`?
pub open spec fn names(remark: Seq<char>, account_no: Seq<char>) -> bool {
    exists|i: int|
        0 <= i < text::runs(remark, Class::Masked).len() && run_names(
            #[trigger] text::runs(remark, Class::Masked)[i],
            account_no,
        )
}

fn names_in_run(run: &str, account_no: &str) -> (r: bool)
    ensures
        r == run_names(run@, account_no@),
{
    let digits = text::trim_start(run, Class::Star);
    if digits.as_str().unicode_len() < 4 {
        return false;
    }
    proof {
        reveal_strlit("*");
        assert("*"@ =~= seq!['*']);
    }
    if text::contains(digits.as_str(), "*") {
        return false;
    }
    text::ends_with(account_no, digits.as_str()) || text::same_text(
        text::trim_start(digits.as_str(), Class::Zero).as_str(),
        text::trim_start(account_no, Class::Zero).as_str(),
    )
}

/// Does a 備註 name `account_no`? LINE Bank prints only an account's tail:
/// masked in front (`***********54321`, the other bank's 16-digit form) or as
/// the last four digits after the bank's short name (`範例銀行4321`).
pub fn remark_names_account(remark: &str, account_no: &str) -> (r: bool)
    ensures
        r == names(remark@, account_no@),
{
    let runs = text::split_runs(remark, Class::Masked);
    let ghost all = text::runs(remark@, Class::Masked);
    let mut i: usize = 0;
    while i < runs.len()
        invariant
            i <= runs@.len(),
            all == text::runs(remark@, Class::Masked),
            all == text::texts(runs@),
            forall|j: int| 0 <= j < i ==> !run_names(#[trigger] all[j], account_no@),
        decreases runs@.len() - i,
    {
        assert(all[i as int] == runs@[i as int]@);
        if names_in_run(runs[i].as_str(), account_no) {
            return true;
        }
        i = i + 1;
    }
    false
}

/// Does the statement's masked number (`*******00042`) fit `account_no`?
pub fn mask_fits(mask: &str, account_no: &str) -> (r: bool)
    ensures
        r == cathay::fits_masked(mask@, account_no@),
{
    cathay::masked_fits(mask, account_no)
}

/// What a row is before its balances are chained.
#[verifier::ext_equal]
pub struct RowV {
    pub date: int,
    pub description: Seq<char>,
    pub amount: Dec,
    pub balance: Option<Dec>,
    pub remark: Seq<char>,
}

/// What one currency's part of a statement is.
#[verifier::ext_equal]
pub struct SectionV {
    pub currency: Currency,
    pub opening: Dec,
    pub closing: Dec,
    pub lines: Seq<LineV>,
}

/// What a statement is as the bank laid it out.
#[verifier::ext_equal]
pub struct DocumentV {
    pub start: int,
    pub end: int,
    pub account_mask: Seq<char>,
    pub sections: Seq<SectionV>,
}

/// One currency's part of a statement.
#[derive(Debug, PartialEq)]
pub struct Section {
    pub currency: Currency,
    pub opening: Amount,
    pub closing: Amount,
    pub lines: Vec<StatementLine>,
}

impl View for Section {
    type V = SectionV;

    open spec fn view(&self) -> SectionV {
        SectionV {
            currency: self.currency,
            opening: self.opening@,
            closing: self.closing@,
            lines: bank::line_views(self.lines@),
        }
    }
}

pub open spec fn section_views(v: Seq<Section>) -> Seq<SectionV> {
    v.map_values(|s: Section| s@)
}

/// One statement as the bank laid it out.
#[derive(Debug, PartialEq)]
pub struct Document {
    pub start: Date,
    pub end: Date,
    /// The TWD 主帳戶's masked number.
    pub account_mask: String,
    /// TWD first.
    pub sections: Vec<Section>,
}

impl View for Document {
    type V = DocumentV;

    open spec fn view(&self) -> DocumentV {
        DocumentV {
            start: self.start@,
            end: self.end@,
            account_mask: self.account_mask@,
            sections: section_views(self.sections@),
        }
    }
}

/// A row before its balances are chained.
struct Row {
    date: Date,
    description: String,
    amount: Amount,
    balance: Option<Amount>,
    remark: String,
}

impl View for Row {
    type V = RowV;

    closed spec fn view(&self) -> RowV {
        RowV {
            date: self.date@,
            description: self.description@,
            amount: self.amount@,
            balance: amount::opt(self.balance),
            remark: self.remark@,
        }
    }
}

spec fn row_views(v: Seq<Row>) -> Seq<RowV> {
    v.map_values(|r: Row| r@)
}

/// `$1,234`, `-$1,234`.
pub open spec fn money(token: Seq<char>) -> Option<Dec> {
    let (negative, rest) = match text::stripped(token, "-"@) {
        Some(rest) => (true, rest),
        None => (false, token),
    };
    match text::stripped(rest, "$"@) {
        Some(digits) => match amount::spelled(text::kept(digits, Class::NotComma)) {
            Some(value) => Some(
                if negative {
                    amount::negated(value)
                } else {
                    value
                },
            ),
            None => None,
        },
        None => None,
    }
}

fn money_of(token: &str) -> (r: Option<Amount>)
    ensures
        amount::opt(r) == money(token@),
{
    let (negative, rest) = match text::strip_prefix(token, "-") {
        Some(rest) => (true, rest),
        None => (false, text::copy(token)),
    };
    match text::strip_prefix(rest.as_str(), "$") {
        Some(digits) => match Amount::parse(text::keep(digits.as_str(), Class::NotComma).as_str()) {
            Some(value) => Some(
                if negative {
                    value.negated()
                } else {
                    value
                },
            ),
            None => None,
        },
        None => None,
    }
}

/// The day a row's first word is, in a format.
pub open spec fn row_date(line: Seq<char>, format: Seq<char>) -> Option<i32> {
    let tokens = text::words(line);
    if tokens.len() == 0 {
        None
    } else {
        date::parsed_date(tokens[0], format)
    }
}

fn row_date_of(line: &str, format: &str) -> (r: Option<Date>)
    requires
        date::is_day_format(format@),
    ensures
        date::opt(r) == (match row_date(line@, format@) {
            Some(n) => Some(n as int),
            None => None,
        }),
{
    let tokens = text::split_words(line);
    assert(text::texts(tokens@).len() == tokens@.len());
    if tokens.len() == 0 {
        None
    } else {
        assert(text::texts(tokens@)[0] == tokens@[0]@);
        Date::parse(tokens[0].as_str(), format)
    }
}

/// The first token at or after `from` that is money.
pub open spec fn first_money(tokens: Seq<Seq<char>>, from: int) -> Option<int>
    decreases tokens.len() - from,
{
    if from < 0 || from >= tokens.len() {
        None
    } else if money(tokens[from]) is Some {
        Some(from)
    } else {
        first_money(tokens, from + 1)
    }
}

/// What a row says: its date, its 交易說明 up to the first amount, the balance
/// where the next word is one, and the rest as its 備註.
pub open spec fn row(line: Seq<char>) -> Result<RowV, Seq<char>> {
    let tokens = text::words(line);
    match row_date(line, "%Y.%m.%d"@) {
        None => Err("no date"@),
        Some(day) => match first_money(tokens, 0) {
            None => Err("no amount"@),
            Some(at) => if at <= 1 {
                Err("no 交易說明"@)
            } else {
                let balance = if at + 1 < tokens.len() {
                    money(tokens[at + 1])
                } else {
                    None
                };
                let rest = if balance is Some {
                    at + 2
                } else {
                    at + 1
                };
                Ok(
                    RowV {
                        date: day as int,
                        description: text::joined(tokens.subrange(1, at), " "@),
                        amount: money(tokens[at])->0,
                        balance,
                        remark: text::joined(tokens.skip(rest), " "@),
                    },
                )
            },
        },
    }
}

fn read_row(line: &str) -> (r: Result<Row, Refusal>)
    ensures
        match r {
            Ok(v) => row(line@) == Ok::<RowV, Seq<char>>(v@),
            Err(e) => row(line@) == Err::<RowV, Seq<char>>(e@),
        },
{
    let tokens = text::split_words(line);
    let ghost all = text::words(line@);
    assert(all.len() == tokens@.len());
    let day = match row_date_of(line, "%Y.%m.%d") {
        Some(day) => day,
        None => {
            return Err(Refusal::new("no date"));
        },
    };
    let mut at: usize = 0;
    while at < tokens.len() && money_of(tokens[at].as_str()).is_none()
        invariant
            at <= tokens@.len(),
            all == text::texts(tokens@),
            first_money(all, 0) == first_money(all, at as int),
        decreases tokens@.len() - at,
    {
        assert(all[at as int] == tokens@[at as int]@);
        at = at + 1;
    }
    if at >= tokens.len() {
        return Err(Refusal::new("no amount"));
    }
    assert(all[at as int] == tokens@[at as int]@);
    if at <= 1 {
        return Err(Refusal::new("no 交易說明"));
    }
    let value = money_of(tokens[at].as_str()).unwrap();
    let balance = if at + 1 < tokens.len() {
        assert(all[at as int + 1] == tokens@[at as int + 1]@);
        money_of(tokens[at + 1].as_str())
    } else {
        None
    };
    let rest: usize = if balance.is_some() {
        at + 2
    } else {
        at + 1
    };
    assert(all.subrange(rest as int, all.len() as int) =~= all.skip(rest as int));
    Ok(
        Row {
            date: day,
            description: text::join(tokens.as_slice(), 1, at, " "),
            amount: value,
            balance,
            remark: text::join(tokens.as_slice(), rest, tokens.len(), " "),
        },
    )
}

/// The rows' amounts added up.
pub open spec fn total(rows: Seq<RowV>) -> Option<Dec>
    decreases rows.len(),
{
    if rows.len() == 0 {
        Some(amount::zero())
    } else {
        match total(rows.drop_last()) {
            Some(t) => amount::sum(t, rows.last().amount),
            None => None,
        }
    }
}

/// The balance before the rows: from the first one's, or back from the closing
/// where it prints none.
pub open spec fn opening_of(rows: Seq<RowV>, closing: Dec) -> Option<Dec> {
    if rows.len() > 0 && rows[0].balance is Some {
        amount::difference(rows[0].balance->0, rows[0].amount)
    } else {
        match total(rows) {
            Some(t) => amount::difference(closing, t),
            None => None,
        }
    }
}

/// The line of a row that brings the balance to `balance`.
pub open spec fn line_of(row: RowV, balance: Dec) -> LineV {
    LineV {
        book_date: row.date,
        description: row.description,
        withdrawal: if row.amount.negative {
            amount::negated(row.amount)
        } else {
            amount::zero()
        },
        deposit: if row.amount.negative {
            amount::zero()
        } else {
            row.amount
        },
        balance,
        info: row.remark,
        memo: Seq::empty(),
    }
}

/// What a row is refused with whose printed balance the rows disagree with.
pub open spec fn misprint(row: RowV, printed: Dec, balance: Dec) -> Seq<char> {
    date::printed(row.date) + " "@ + row.description + " prints a balance of "@ + amount::printed(
        printed,
    ) + ", but the rows up to it add up to "@ + amount::printed(balance)
}

/// The balance after the rows and their lines, chained from `opening` and
/// checked against every balance printed.
pub open spec fn chained(rows: Seq<RowV>, opening: Dec) -> Result<(Dec, Seq<LineV>), Seq<char>>
    decreases rows.len(),
{
    if rows.len() == 0 {
        Ok((opening, Seq::empty()))
    } else {
        match chained(rows.drop_last(), opening) {
            Err(e) => Err(e),
            Ok((before, lines)) => {
                let row = rows.last();
                match amount::sum(before, row.amount) {
                    None => Err(refusal::out_of_range()),
                    Some(balance) => match row.balance {
                        Some(printed) => if amount::equal(printed, balance) {
                            Ok((balance, lines.push(line_of(row, balance))))
                        } else {
                            Err(misprint(row, printed, balance))
                        },
                        None => Ok((balance, lines.push(line_of(row, balance)))),
                    },
                }
            },
        }
    }
}

/// The opening and the lines of the rows, which have to reach the closing.
pub open spec fn chain(rows: Seq<RowV>, closing: Dec) -> Result<(Dec, Seq<LineV>), Seq<char>> {
    match opening_of(rows, closing) {
        None => Err(refusal::out_of_range()),
        Some(opening) => match chained(rows, opening) {
            Err(e) => Err(e),
            Ok((balance, lines)) => if amount::equal(balance, closing) {
                Ok((opening, lines))
            } else {
                Err(
                    "the rows add up to "@ + amount::printed(balance)
                        + ", but the statement closes at "@ + amount::printed(closing),
                )
            },
        },
    }
}

/// Once a row is refused, so are the rows that follow.
proof fn refused_stays(rows: Seq<RowV>, opening: Dec, n: int)
    requires
        0 <= n <= rows.len(),
        chained(rows.take(n), opening) is Err,
    ensures
        chained(rows, opening) == chained(rows.take(n), opening),
    decreases rows.len(),
{
    if n == rows.len() {
        assert(rows.take(n) =~= rows);
    } else {
        assert(rows.drop_last().take(n) =~= rows.take(n));
        refused_stays(rows.drop_last(), opening, n);
    }
}

proof fn no_total_stays(rows: Seq<RowV>, n: int)
    requires
        0 <= n <= rows.len(),
        total(rows.take(n)) is None,
    ensures
        total(rows) is None,
    decreases rows.len(),
{
    if n == rows.len() {
        assert(rows.take(n) =~= rows);
    } else {
        assert(rows.drop_last().take(n) =~= rows.take(n));
        no_total_stays(rows.drop_last(), n);
    }
}

fn total_of(rows: &Vec<Row>) -> (r: Option<Amount>)
    ensures
        amount::opt(r) == total(row_views(rows@)),
{
    let ghost all = row_views(rows@);
    let mut out = Amount::zero();
    let mut i: usize = 0;
    while i < rows.len()
        invariant
            i <= rows@.len(),
            all == row_views(rows@),
            total(all.take(i as int)) == Some(out@),
        decreases rows@.len() - i,
    {
        assert(all.take(i as int + 1).drop_last() =~= all.take(i as int));
        match out.plus(&rows[i].amount) {
            Some(next) => {
                out = next;
            },
            None => {
                proof {
                    no_total_stays(all, i as int + 1);
                }
                return None;
            },
        }
        i = i + 1;
    }
    assert(all.take(i as int) =~= all);
    Some(out)
}

fn misprint_of(row: &Row, printed: &Amount, balance: &Amount) -> (r: Refusal)
    ensures
        r@ == misprint(row@, printed@, balance@),
{
    let mut out = row.date.text();
    out.append(" ");
    out.append(row.description.as_str());
    out.append(" prints a balance of ");
    out.append(printed.text().as_str());
    out.append(", but the rows up to it add up to ");
    out.append(balance.text().as_str());
    Refusal { message: out }
}

/// Chains the rows' balances from the first one's (or back from the closing,
/// should it print none), and checks them against every balance printed and
/// the closing.
fn chain_rows(rows: Vec<Row>, closing: Amount) -> (r: Result<
    (Amount, Vec<StatementLine>),
    Refusal,
>)
    ensures
        match r {
            Ok((opening, lines)) => chain(row_views(rows@), closing@) == Ok::<
                (Dec, Seq<LineV>),
                Seq<char>,
            >((opening@, bank::line_views(lines@))),
            Err(e) => chain(row_views(rows@), closing@) == Err::<(Dec, Seq<LineV>), Seq<char>>(e@),
        },
{
    let ghost all = row_views(rows@);
    assert(all.len() == rows@.len());
    let first = if rows.len() > 0 {
        assert(all[0] == rows@[0]@);
        rows[0].balance
    } else {
        None
    };
    let start = match first {
        Some(balance) => balance.minus(&rows[0].amount),
        None => match total_of(&rows) {
            Some(t) => closing.minus(&t),
            None => None,
        },
    };
    let opening = match start {
        Some(opening) => opening,
        None => {
            return Err(Refusal::out_of_range());
        },
    };
    let mut balance = opening;
    let mut lines: Vec<StatementLine> = Vec::new();
    assert(bank::line_views(lines@) =~= Seq::empty());
    let mut i: usize = 0;
    while i < rows.len()
        invariant
            i <= rows@.len(),
            all == row_views(rows@),
            opening_of(all, closing@) == Some(opening@),
            chained(all.take(i as int), opening@) == Ok::<(Dec, Seq<LineV>), Seq<char>>(
                (balance@, bank::line_views(lines@)),
            ),
        decreases rows@.len() - i,
    {
        let row = &rows[i];
        let ghost done = lines@;
        let ghost upto = all.take(i as int + 1);
        assert(upto.drop_last() =~= all.take(i as int));
        assert(upto.last() == row@);
        match balance.plus(&row.amount) {
            Some(next) => {
                balance = next;
            },
            None => {
                proof {
                    refused_stays(all, opening@, i as int + 1);
                }
                return Err(Refusal::out_of_range());
            },
        }
        if let Some(printed) = row.balance {
            if !printed.equals(&balance) {
                proof {
                    refused_stays(all, opening@, i as int + 1);
                }
                return Err(misprint_of(row, &printed, &balance));
            }
        }
        let negative = row.amount.is_sign_negative();
        let line = StatementLine {
            book_date: row.date,
            description: text::copy(row.description.as_str()),
            withdrawal: if negative {
                row.amount.negated()
            } else {
                Amount::zero()
            },
            deposit: if negative {
                Amount::zero()
            } else {
                row.amount
            },
            balance,
            info: text::copy(row.remark.as_str()),
            memo: String::new(),
        };
        assert(line@.memo =~= Seq::empty());
        assert(line@ == line_of(row@, balance@));
        lines.push(line);
        assert(bank::line_views(lines@) =~= bank::line_views(done).push(line@));
        i = i + 1;
    }
    assert(all.take(i as int) =~= all);
    if !balance.equals(&closing) {
        let mut out = text::copy("the rows add up to ");
        out.append(balance.text().as_str());
        out.append(", but the statement closes at ");
        out.append(closing.text().as_str());
        return Err(Refusal { message: out });
    }
    Ok((opening, lines))
}

/// The part of a statement a line stands in.
#[derive(Clone, Copy, PartialEq, Eq, Structural, Debug)]
pub enum Part {
    Header,
    Twd,
    Foreign,
    /// The debit-card list repeats rows already in the account's own.
    Card,
}

/// What has been read of a statement so far.
#[verifier::ext_equal]
pub struct Scan {
    pub period: Option<(int, int)>,
    pub part: Part,
    /// 台幣存款總餘額.
    pub total: Option<Dec>,
    /// The 主帳戶's masked number and balance.
    pub account: Option<(Seq<char>, Dec)>,
    pub rows: Seq<RowV>,
    pub foreign: Seq<SectionV>,
    /// Whether the next line may continue the last row's 備註.
    pub wrapping: bool,
    /// The line before.
    pub previous: Seq<char>,
}

/// The part a heading begins.
pub open spec fn heading(t: Seq<char>) -> Option<Part> {
    if text::holds(t, "台幣存款交易明細"@) {
        Some(Part::Twd)
    } else if text::holds(t, "外幣存款交易明細"@) {
        Some(Part::Foreign)
    } else if text::holds(t, "簽帳金融卡"@) {
        Some(Part::Card)
    } else {
        None
    }
}

/// The days of a statement period, `20260301-20260331` among other text.
pub open spec fn period_of(rest: Seq<char>) -> Result<(int, int), Seq<char>> {
    match text::parted(text::kept(rest, Class::Range), "-"@) {
        None => Err("statement period"@),
        Some((start, end)) => match (
            date::parsed_date(start, "%Y%m%d"@),
            date::parsed_date(end, "%Y%m%d"@),
        ) {
            (Some(a), Some(b)) => Ok((a as int, b as int)),
            _ => Err("unparseable statement period"@),
        },
    }
}

/// Is there a section in this currency?
pub open spec fn has_section(sections: Seq<SectionV>, c: Currency) -> bool {
    exists|i: int| 0 <= i < sections.len() && (#[trigger] sections[i]).currency == c
}

/// A foreign account's line: its kind, its masked number, its balance and its
/// currency.
pub open spec fn foreign_section(
    t: Seq<char>,
    tokens: Seq<Seq<char>>,
    held: Seq<SectionV>,
) -> Result<SectionV, Seq<char>> {
    match currency::of_code(tokens[3]) {
        None => Err("currency in "@ + text::debug_text(t)),
        Some(c) => match amount::spelled(text::kept(tokens[2], Class::NotComma)) {
            None => Err("balance in "@ + text::debug_text(t)),
            Some(closing) => if has_section(held, c) {
                Err("two "@ + currency::code(c) + " accounts; only one per currency is read"@)
            } else {
                Ok(SectionV { currency: c, opening: closing, closing, lines: Seq::empty() })
            },
        },
    }
}

/// What a line of the TWD part adds: a row, the account's balance, or more of
/// the last row's 備註. Any other line ends the 備註.
pub open spec fn twd_line(s: Scan, t: Seq<char>) -> Result<Scan, Seq<char>> {
    let tokens = text::words(t);
    if row_date(t, "%Y.%m.%d"@) is Some {
        match row(t) {
            Err(e) => Err("row "@ + text::debug_text(t) + ": "@ + e),
            Ok(row) => Ok(Scan { rows: s.rows.push(row), wrapping: true, ..s }),
        }
    } else if tokens.len() == 3 && tokens[0] == "主帳戶"@ && text::holds(tokens[1], "*"@) {
        match money(tokens[2]) {
            Some(closing) => Ok(Scan { account: Some((tokens[1], closing)), ..s }),
            None => Ok(s),
        }
    } else if s.wrapping && t.len() > 0 && !text::holds(t, "交易說明"@) {
        let last = s.rows.last();
        Ok(
            Scan {
                rows: s.rows.drop_last().push(RowV { remark: last.remark + t, ..last }),
                ..s
            },
        )
    } else {
        Ok(Scan { wrapping: false, ..s })
    }
}

/// What a line of the foreign part adds: an account that nothing moved in.
pub open spec fn foreign_line(s: Scan, t: Seq<char>) -> Result<Scan, Seq<char>> {
    let tokens = text::words(t);
    if row_date(t, "%Y.%m.%d"@) is Some {
        Err("foreign-currency rows are not read yet: "@ + text::debug_text(t))
    } else if tokens.len() == 4 && text::holds(tokens[1], "*"@) {
        match foreign_section(t, tokens, s.foreign) {
            Err(e) => Err(e),
            Ok(section) => Ok(Scan { foreign: s.foreign.push(section), ..s }),
        }
    } else {
        Ok(s)
    }
}

/// What a line adds to what has been read.
pub open spec fn step(s: Scan, line: Seq<char>) -> Result<Scan, Seq<char>> {
    let t = text::trimmed(line, Class::White);
    let next = Scan { previous: t, ..s };
    match text::parted(t, "對帳單期間"@) {
        Some((_, rest)) => match period_of(rest) {
            Err(e) => Err(e),
            Ok(p) => Ok(Scan { period: Some(p), ..next }),
        },
        None => match heading(t) {
            Some(part) => Ok(Scan { part, wrapping: false, ..next }),
            None => {
                let counted = Scan {
                    total: if text::ends(s.previous, "台幣存款總餘額"@) {
                        money(t)
                    } else {
                        s.total
                    },
                    ..next
                };
                match s.part {
                    Part::Twd => twd_line(counted, t),
                    Part::Foreign => foreign_line(counted, t),
                    _ => Ok(counted),
                }
            },
        },
    }
}

/// A line without the decorative layer's glyphs, which come out as control
/// characters.
pub open spec fn cleaned(line: Seq<char>) -> Seq<char> {
    text::kept(line, Class::Printed)
}

/// What has been read once `lines` are, the sample rows among them aside.
pub open spec fn scanned(lines: Seq<Seq<char>>) -> Result<Scan, Seq<char>>
    decreases lines.len(),
{
    if lines.len() == 0 {
        Ok(
            Scan {
                period: None,
                part: Part::Header,
                total: None,
                account: None,
                rows: Seq::empty(),
                foreign: Seq::empty(),
                wrapping: false,
                previous: Seq::empty(),
            },
        )
    } else {
        match scanned(lines.drop_last()) {
            Err(e) => Err(e),
            Ok(s) => {
                let line = cleaned(lines.last());
                if row_date(line, "%Y/%m/%d"@) is Some {
                    Ok(s)
                } else {
                    step(s, line)
                }
            },
        }
    }
}

/// The statement once every line is read.
pub open spec fn finished(s: Scan) -> Result<DocumentV, Seq<char>> {
    match (s.period, s.account) {
        (None, _) => Err("no 對帳單期間"@),
        (_, None) => Err("no 主帳戶 balance"@),
        (Some((start, end)), Some((account_mask, closing))) => if s.total matches Some(total)
            && !amount::equal(total, closing) {
            Err(
                "台幣存款總餘額 "@ + amount::printed(s.total->0) + " is not the 主帳戶's "@
                    + amount::printed(closing) + "; sub-accounts are not read yet"@,
            )
        } else {
            match chain(s.rows, closing) {
                Err(e) => Err(e),
                Ok((opening, lines)) => Ok(
                    DocumentV {
                        start,
                        end,
                        account_mask,
                        sections: seq![
                            SectionV { currency: Currency::TWD, opening, closing, lines },
                        ] + s.foreign,
                    },
                ),
            }
        },
    }
}

/// The statement a PDF's text holds.
pub open spec fn document(s: Seq<char>) -> Result<DocumentV, Seq<char>> {
    match scanned(text::lines(s)) {
        Err(e) => Err(e),
        Ok(scan) => finished(scan),
    }
}

/// What has been read of a statement so far.
struct Reader {
    period: Option<(Date, Date)>,
    part: Part,
    total: Option<Amount>,
    account: Option<(String, Amount)>,
    rows: Vec<Row>,
    foreign: Vec<Section>,
    wrapping: bool,
    previous: String,
}

impl View for Reader {
    type V = Scan;

    closed spec fn view(&self) -> Scan {
        Scan {
            period: match self.period {
                Some((a, b)) => Some((a@, b@)),
                None => None,
            },
            part: self.part,
            total: amount::opt(self.total),
            account: match self.account {
                Some((mask, closing)) => Some((mask@, closing@)),
                None => None,
            },
            rows: row_views(self.rows@),
            foreign: section_views(self.foreign@),
            wrapping: self.wrapping,
            previous: self.previous@,
        }
    }
}

spec fn read_as(r: Result<Reader, Refusal>) -> Result<Scan, Seq<char>> {
    match r {
        Ok(s) => Ok(s@),
        Err(e) => Err(e@),
    }
}

impl Reader {
    /// A 備註 can only wrap behind a row.
    spec fn sound(&self) -> bool {
        self.wrapping ==> self.rows@.len() > 0
    }

    fn read_twd(self, t: &str) -> (r: Result<Reader, Refusal>)
        requires
            self.sound(),
        ensures
            read_as(r) == twd_line(self@, t@),
            r matches Ok(s) ==> s.sound(),
    {
        let tokens = text::split_words(t);
        let ghost words = text::words(t@);
        assert(words.len() == tokens@.len());
        let mut next = self;
        if row_date_of(t, "%Y.%m.%d").is_some() {
            match read_row(t) {
                Err(e) => {
                    let mut out = text::copy("row ");
                    out.append(text::quoted(t).as_str());
                    out.append(": ");
                    out.append(e.message.as_str());
                    return Err(Refusal { message: out });
                },
                Ok(row) => {
                    next.rows.push(row);
                    next.wrapping = true;
                    assert(row_views(next.rows@) =~= row_views(self.rows@).push(row@));
                    return Ok(next);
                },
            }
        }
        if tokens.len() == 3 {
            assert(words[0] == tokens@[0]@ && words[1] == tokens@[1]@ && words[2] == tokens@[2]@);
            if text::same_text(tokens[0].as_str(), "主帳戶") && text::contains(
                tokens[1].as_str(),
                "*",
            ) {
                if let Some(closing) = money_of(tokens[2].as_str()) {
                    next.account = Some((text::copy(tokens[1].as_str()), closing));
                }
                return Ok(next);
            }
        }
        if next.wrapping && !t.is_empty() && !text::contains(t, "交易說明") {
            let mut last = next.rows.pop().unwrap();
            assert(self@.rows.last() == last@);
            last.remark.append(t);
            next.rows.push(last);
            assert(row_views(next.rows@) =~= self@.rows.drop_last().push(last@));
            return Ok(next);
        }
        next.wrapping = false;
        Ok(next)
    }

    fn has_section(&self, c: Currency) -> (r: bool)
        ensures
            r == has_section(self@.foreign, c),
    {
        let mut i: usize = 0;
        while i < self.foreign.len()
            invariant
                i <= self.foreign@.len(),
                forall|j: int| 0 <= j < i ==> (#[trigger] self@.foreign[j]).currency != c,
            decreases self.foreign@.len() - i,
        {
            assert(self@.foreign[i as int] == self.foreign@[i as int]@);
            if self.foreign[i].currency == c {
                return true;
            }
            i = i + 1;
        }
        false
    }

    fn read_foreign(self, t: &str) -> (r: Result<Reader, Refusal>)
        requires
            self.sound(),
        ensures
            read_as(r) == foreign_line(self@, t@),
            r matches Ok(s) ==> s.sound(),
    {
        let tokens = text::split_words(t);
        let ghost words = text::words(t@);
        assert(words.len() == tokens@.len());
        if row_date_of(t, "%Y.%m.%d").is_some() {
            let mut out = text::copy("foreign-currency rows are not read yet: ");
            out.append(text::quoted(t).as_str());
            return Err(Refusal { message: out });
        }
        if tokens.len() != 4 {
            return Ok(self);
        }
        assert(words[1] == tokens@[1]@ && words[2] == tokens@[2]@ && words[3] == tokens@[3]@);
        if !text::contains(tokens[1].as_str(), "*") {
            return Ok(self);
        }
        let c = match Currency::parse(tokens[3].as_str()) {
            Some(c) => c,
            None => {
                let mut out = text::copy("currency in ");
                out.append(text::quoted(t).as_str());
                return Err(Refusal { message: out });
            },
        };
        let closing = match Amount::parse(
            text::keep(tokens[2].as_str(), Class::NotComma).as_str(),
        ) {
            Some(closing) => closing,
            None => {
                let mut out = text::copy("balance in ");
                out.append(text::quoted(t).as_str());
                return Err(Refusal { message: out });
            },
        };
        if self.has_section(c) {
            let mut out = text::copy("two ");
            out.append(c.text().as_str());
            out.append(" accounts; only one per currency is read");
            return Err(Refusal { message: out });
        }
        let mut next = self;
        let section = Section { currency: c, opening: closing, closing, lines: Vec::new() };
        assert(section@.lines =~= Seq::empty());
        next.foreign.push(section);
        assert(section_views(next.foreign@) =~= section_views(self.foreign@).push(section@));
        Ok(next)
    }

    fn read(self, line: &str) -> (r: Result<Reader, Refusal>)
        requires
            self.sound(),
        ensures
            read_as(r) == step(self@, line@),
            r matches Ok(s) ==> s.sound(),
    {
        let t = text::trim(line, Class::White);
        let counted = text::ends_with(self.previous.as_str(), "台幣存款總餘額");
        let mut next = self;
        next.previous = text::copy(t.as_str());
        if let Some((_, rest)) = text::split_once(t.as_str(), "對帳單期間") {
            let range = text::keep(rest.as_str(), Class::Range);
            return match text::split_once(range.as_str(), "-") {
                None => Err(Refusal::new("statement period")),
                Some((start, end)) => match (
                    Date::parse(start.as_str(), "%Y%m%d"),
                    Date::parse(end.as_str(), "%Y%m%d"),
                ) {
                    (Some(a), Some(b)) => {
                        next.period = Some((a, b));
                        Ok(next)
                    },
                    _ => Err(Refusal::new("unparseable statement period")),
                },
            };
        }
        let part = if text::contains(t.as_str(), "台幣存款交易明細") {
            Some(Part::Twd)
        } else if text::contains(t.as_str(), "外幣存款交易明細") {
            Some(Part::Foreign)
        } else if text::contains(t.as_str(), "簽帳金融卡") {
            Some(Part::Card)
        } else {
            None
        };
        if let Some(part) = part {
            next.part = part;
            next.wrapping = false;
            return Ok(next);
        }
        if counted {
            next.total = money_of(t.as_str());
        }
        match next.part {
            Part::Twd => next.read_twd(t.as_str()),
            Part::Foreign => next.read_foreign(t.as_str()),
            _ => Ok(next),
        }
    }

    fn finish(self) -> (r: Result<Document, Refusal>)
        ensures
            match r {
                Ok(d) => finished(self@) == Ok::<DocumentV, Seq<char>>(d@),
                Err(e) => finished(self@) == Err::<DocumentV, Seq<char>>(e@),
            },
    {
        let (start, end) = match self.period {
            Some(period) => period,
            None => {
                return Err(Refusal::new("no 對帳單期間"));
            },
        };
        let (account_mask, closing) = match self.account {
            Some(account) => account,
            None => {
                return Err(Refusal::new("no 主帳戶 balance"));
            },
        };
        if let Some(total) = self.total {
            if !total.equals(&closing) {
                let mut out = text::copy("台幣存款總餘額 ");
                out.append(total.text().as_str());
                out.append(" is not the 主帳戶's ");
                out.append(closing.text().as_str());
                out.append("; sub-accounts are not read yet");
                return Err(Refusal { message: out });
            }
        }
        match chain_rows(self.rows, closing) {
            Err(e) => Err(e),
            Ok((opening, lines)) => {
                let twd = Section { currency: Currency::TWD, opening, closing, lines };
                let mut sections: Vec<Section> = Vec::new();
                sections.push(twd);
                let mut foreign = self.foreign;
                sections.append(&mut foreign);
                assert(section_views(sections@) =~= seq![twd@] + section_views(self.foreign@));
                Ok(Document { start, end, account_mask, sections })
            },
        }
    }
}

proof fn scan_refused_stays(lines: Seq<Seq<char>>, n: int)
    requires
        0 <= n <= lines.len(),
        scanned(lines.take(n)) is Err,
    ensures
        scanned(lines) == scanned(lines.take(n)),
    decreases lines.len(),
{
    if n == lines.len() {
        assert(lines.take(n) =~= lines);
    } else {
        assert(lines.drop_last().take(n) =~= lines.take(n));
        scan_refused_stays(lines.drop_last(), n);
    }
}

impl Document {
    /// Reads a statement out of its PDF's text.
    pub fn parse(s: &str) -> (r: Result<Document, Refusal>)
        ensures
            match r {
                Ok(d) => document(s@) == Ok::<DocumentV, Seq<char>>(d@),
                Err(e) => document(s@) == Err::<DocumentV, Seq<char>>(e@),
            },
    {
        let lines = text::split_lines(s);
        let ghost all = text::lines(s@);
        let mut reader = Reader {
            period: None,
            part: Part::Header,
            total: None,
            account: None,
            rows: Vec::new(),
            foreign: Vec::new(),
            wrapping: false,
            previous: String::new(),
        };
        assert(reader@.rows =~= Seq::empty());
        assert(reader@.foreign =~= Seq::empty());
        assert(reader@.previous =~= Seq::empty());
        let mut i: usize = 0;
        while i < lines.len()
            invariant
                i <= lines@.len(),
                all == text::lines(s@),
                all == text::texts(lines@),
                reader.sound(),
                scanned(all.take(i as int)) == Ok::<Scan, Seq<char>>(reader@),
            decreases lines@.len() - i,
        {
            assert(all[i as int] == lines@[i as int]@);
            assert(all.take(i as int + 1).drop_last() =~= all.take(i as int));
            let line = text::keep(lines[i].as_str(), Class::Printed);
            if row_date_of(line.as_str(), "%Y/%m/%d").is_none() {
                match reader.read(line.as_str()) {
                    Ok(next) => {
                        reader = next;
                    },
                    Err(e) => {
                        proof {
                            scan_refused_stays(all, i as int + 1);
                        }
                        return Err(e);
                    },
                }
            }
            i = i + 1;
        }
        assert(all.take(i as int) =~= all);
        reader.finish()
    }
}

/// What a statement is refused with that lies outside such a folder.
pub open spec fn no_folder(path: Seq<char>) -> Seq<char> {
    path + " is not in a <kind>-<account> folder"@
}

/// `<kind>-<account>`, the statement's folder.
pub open spec fn folder(name: Option<Seq<char>>, path: Seq<char>) -> Result<
    (Seq<char>, Seq<char>),
    Seq<char>,
> {
    match name {
        None => Err(no_folder(path)),
        Some(name) => match text::parted_back(name, "-"@) {
            Some(parts) => Ok(parts),
            None => Err(no_folder(path)),
        },
    }
}

/// `<kind>-<account>`, the statement's folder.
pub fn folder_account(name: Option<&str>, path: &str) -> (r: Result<(String, String), Refusal>)
    ensures
        match r {
            Ok((kind, account)) => folder(
                match name {
                    Some(n) => Some(n@),
                    None => None,
                },
                path@,
            ) == Ok::<(Seq<char>, Seq<char>), Seq<char>>((kind@, account@)),
            Err(e) => folder(
                match name {
                    Some(n) => Some(n@),
                    None => None,
                },
                path@,
            ) == Err::<(Seq<char>, Seq<char>), Seq<char>>(e@),
        },
{
    proof {
        reveal_strlit("-");
    }
    if let Some(name) = name {
        if let Some(parts) = text::split_once_back(name, "-") {
            return Ok(parts);
        }
    }
    let mut out = text::copy(path);
    out.append(" is not in a <kind>-<account> folder");
    Err(Refusal { message: out })
}

/// The statement of one currency of a document.
pub open spec fn statement_of(
    d: DocumentV,
    s: SectionV,
    kind: Seq<char>,
    account_no: Seq<char>,
) -> StatementV {
    StatementV {
        bank: Bank::LineBank,
        account_no,
        account_kind: if s.currency == Currency::TWD {
            kind
        } else {
            kind + " "@ + currency::code(s.currency)
        },
        currency: s.currency,
        period_end: Some(d.end),
        periods: seq![
            PeriodV { start: d.start, end: d.end, opening: s.opening, closing: s.closing },
        ],
        lines: s.lines,
    }
}

/// One statement per currency a document covers, including a currency with no
/// rows. `name` is the folder the document at `path` lies in.
pub open spec fn statements(s: Seq<char>, name: Option<Seq<char>>, path: Seq<char>) -> Result<
    Seq<StatementV>,
    Seq<char>,
> {
    match document(s) {
        Err(e) => Err("reading "@ + path + ": "@ + e),
        Ok(d) => match folder(name, path) {
            Err(e) => Err(e),
            Ok((kind, account_no)) => if !cathay::fits_masked(d.account_mask, account_no) {
                Err(
                    path + " is account "@ + d.account_mask + ", not the folder's "@ + account_no,
                )
            } else {
                Ok(d.sections.map_values(|x: SectionV| statement_of(d, x, kind, account_no)))
            },
        },
    }
}

pub open spec fn statement_views(v: Seq<BankStatement>) -> Seq<StatementV> {
    v.map_values(|s: BankStatement| s@)
}

/// One statement per currency the document covers, including a currency with
/// no rows. `name` is the folder the document at `path` lies in.
pub fn load(s: &str, name: Option<&str>, path: &str) -> (r: Result<Vec<BankStatement>, Refusal>)
    ensures
        match r {
            Ok(v) => statements(
                s@,
                match name {
                    Some(n) => Some(n@),
                    None => None,
                },
                path@,
            ) == Ok::<Seq<StatementV>, Seq<char>>(statement_views(v@)) && forall|i: int|
                0 <= i < v@.len() ==> (#[trigger] v@[i])@.periods.len() == 1,
            Err(e) => statements(
                s@,
                match name {
                    Some(n) => Some(n@),
                    None => None,
                },
                path@,
            ) == Err::<Seq<StatementV>, Seq<char>>(e@),
        },
{
    let doc = match Document::parse(s) {
        Ok(doc) => doc,
        Err(e) => {
            let mut out = text::copy("reading ");
            out.append(path);
            out.append(": ");
            out.append(e.message.as_str());
            return Err(Refusal { message: out });
        },
    };
    let ghost d = doc@;
    let (kind, account_no) = match folder_account(name, path) {
        Ok(parts) => parts,
        Err(e) => {
            return Err(e);
        },
    };
    if !mask_fits(doc.account_mask.as_str(), account_no.as_str()) {
        let mut out = text::copy(path);
        out.append(" is account ");
        out.append(doc.account_mask.as_str());
        out.append(", not the folder's ");
        out.append(account_no.as_str());
        return Err(Refusal { message: out });
    }
    let (start, end) = (doc.start, doc.end);
    let mut rest = doc.sections;
    let mut out: Vec<BankStatement> = Vec::new();
    let ghost mut n: int = 0;
    let ghost all = d.sections.map_values(|x: SectionV| statement_of(d, x, kind@, account_no@));
    assert(statement_views(out@) =~= all.take(0));
    assert(section_views(rest@) =~= d.sections.skip(0));
    while rest.len() > 0
        invariant
            0 <= n <= d.sections.len(),
            section_views(rest@) == d.sections.skip(n),
            start@ == d.start,
            end@ == d.end,
            all == d.sections.map_values(|x: SectionV| statement_of(d, x, kind@, account_no@)),
            statement_views(out@) == all.take(n),
            forall|i: int| 0 <= i < out@.len() ==> (#[trigger] out@[i])@.periods.len() == 1,
        decreases rest@.len(),
    {
        let ghost before = rest@;
        let ghost done = out@;
        let section = rest.remove(0);
        assert(section@ == section_views(before)[0]);
        assert(d.sections.skip(n).len() == before.len());
        assert(section@ == d.sections[n]);
        assert(section_views(rest@) =~= section_views(before).skip(1));
        assert(section_views(rest@) =~= d.sections.skip(n + 1));
        let mut account_kind = text::copy(kind.as_str());
        if section.currency != Currency::TWD {
            account_kind.append(" ");
            account_kind.append(section.currency.text().as_str());
        }
        let period = Period { start, end, opening: section.opening, closing: section.closing };
        let mut periods: Vec<Period> = Vec::new();
        periods.push(period);
        assert(bank::period_views(periods@) =~= seq![period@]);
        let st = BankStatement {
            bank: Bank::LineBank,
            account_no: text::copy(account_no.as_str()),
            account_kind,
            currency: section.currency,
            period_end: Some(end),
            periods,
            lines: section.lines,
        };
        assert(st@ =~= all[n]);
        out.push(st);
        assert(statement_views(out@) =~= statement_views(done).push(st@));
        assert(all.take(n + 1) =~= all.take(n).push(all[n]));
        proof {
            n = n + 1;
        }
    }
    assert(d.sections.skip(n).len() == 0);
    assert(all.take(n) =~= all);
    Ok(out)
}

/// What a statement of the month is sorted by: its account, its currency and
/// its first day.
pub open spec fn month_key(s: StatementV) -> KeyV {
    KeyV {
        text: s.account_no,
        numbers: (currency::rank(s.currency), s.periods[0].start, 0, 0),
    }
}

/// Statements with the files they come from.
pub open spec fn file_views(v: Seq<(BankStatement, String)>) -> Seq<(StatementV, Seq<char>)> {
    v.map_values(|e: (BankStatement, String)| (e.0@, e.1@))
}

pub open spec fn month_keys(v: Seq<(StatementV, Seq<char>)>) -> Seq<KeyV> {
    v.map_values(|e: (StatementV, Seq<char>)| month_key(e.0))
}

/// `m` with the statement of the next month, which must start the day after
/// `m` ends, on the balance it closed on.
pub open spec fn followed(m: MergedV, next: StatementV, path: Seq<char>) -> Result<
    MergedV,
    Seq<char>,
> {
    let before = m.statement.periods.last();
    let after = next.periods[0];
    let named = m.statement.account_no + " "@ + currency::code(m.statement.currency) + ": "@ + path;
    if date::after(before.end) != Some(after.start) {
        Err(
            named + " covers "@ + date::printed(after.start) + ".."@ + date::printed(after.end)
                + ", but the statement before ends "@ + date::printed(before.end)
                + "; one is missing or repeated"@,
        )
    } else if !amount::equal(after.opening, before.closing) {
        Err(
            named + " opens at "@ + amount::printed(after.opening)
                + ", but the month before closed at "@ + amount::printed(before.closing),
        )
    } else {
        Ok(
            MergedV {
                statement: StatementV {
                    period_end: next.period_end,
                    periods: m.statement.periods + next.periods,
                    lines: m.statement.lines + next.lines,
                    ..m.statement
                },
                paths: m.paths.push(path),
                spans: m.spans.push(next.lines.len() as int),
            },
        )
    }
}

/// The months in order, joined per account and currency.
pub open spec fn months_joined(months: Seq<(StatementV, Seq<char>)>) -> Result<
    Seq<MergedV>,
    Seq<char>,
>
    decreases months.len(),
{
    if months.len() == 0 {
        Ok(Seq::empty())
    } else {
        match months_joined(months.drop_last()) {
            Err(e) => Err(e),
            Ok(merged) => {
                let (s, path) = months.last();
                if merged.len() > 0 && merged.last().statement.account_no == s.account_no
                    && merged.last().statement.currency == s.currency {
                    match followed(merged.last(), s, path) {
                        Err(e) => Err(e),
                        Ok(m) => Ok(merged.drop_last().push(m)),
                    }
                } else {
                    Ok(
                        merged.push(
                            MergedV {
                                statement: s,
                                paths: seq![path],
                                spans: seq![s.lines.len() as int],
                            },
                        ),
                    )
                }
            },
        }
    }
}

/// Each account's monthly statements joined per currency.
pub open spec fn merged(v: Seq<(StatementV, Seq<char>)>) -> Result<Seq<MergedV>, Seq<char>> {
    months_joined(sort::arranged(v, sort::order(month_keys(v))))
}

/// Does every statement state a period?
pub open spec fn issued(v: Seq<(StatementV, Seq<char>)>) -> bool {
    forall|i: int| 0 <= i < v.len() ==> (#[trigger] v[i]).0.periods.len() > 0
}

proof fn joined_refused_stays(months: Seq<(StatementV, Seq<char>)>, n: int)
    requires
        0 <= n <= months.len(),
        months_joined(months.take(n)) is Err,
    ensures
        months_joined(months) == months_joined(months.take(n)),
    decreases months.len(),
{
    if n == months.len() {
        assert(months.take(n) =~= months);
    } else {
        assert(months.drop_last().take(n) =~= months.take(n));
        joined_refused_stays(months.drop_last(), n);
    }
}

fn follow(m: Merged, next: BankStatement, path: String) -> (r: Result<Merged, Refusal>)
    requires
        m@.statement.periods.len() > 0,
        next@.periods.len() > 0,
    ensures
        match r {
            Ok(v) => followed(m@, next@, path@) == Ok::<MergedV, Seq<char>>(v@)
                && v@.statement.periods.len() > 0,
            Err(e) => followed(m@, next@, path@) == Err::<MergedV, Seq<char>>(e@),
        },
{
    let last: usize = m.statement.periods.len() - 1;
    let before = m.statement.periods[last];
    let after = next.periods[0];
    assert(m@.statement.periods.last() == before@);
    assert(next@.periods[0] == after@);
    let mut named = text::copy(m.statement.account_no.as_str());
    named.append(" ");
    named.append(m.statement.currency.text().as_str());
    named.append(": ");
    named.append(path.as_str());
    let adjacent = match before.end.succ_opt() {
        Some(day) => day.number() == after.start.number(),
        None => false,
    };
    if !adjacent {
        let mut out = named;
        out.append(" covers ");
        out.append(after.start.text().as_str());
        out.append("..");
        out.append(after.end.text().as_str());
        out.append(", but the statement before ends ");
        out.append(before.end.text().as_str());
        out.append("; one is missing or repeated");
        return Err(Refusal { message: out });
    }
    if !after.opening.equals(&before.closing) {
        let mut out = named;
        out.append(" opens at ");
        out.append(after.opening.text().as_str());
        out.append(", but the month before closed at ");
        out.append(before.closing.text().as_str());
        return Err(Refusal { message: out });
    }
    let count: usize = next.lines.len();
    let mut statement = m.statement;
    let mut paths = m.paths;
    let mut spans = m.spans;
    let mut periods = next.periods;
    let mut lines = next.lines;
    statement.period_end = next.period_end;
    statement.periods.append(&mut periods);
    statement.lines.append(&mut lines);
    paths.push(path);
    spans.push(count);
    assert(bank::period_views(statement.periods@) =~= m@.statement.periods + next@.periods);
    assert(bank::line_views(statement.lines@) =~= m@.statement.lines + next@.lines);
    assert(text::texts(paths@) =~= m@.paths.push(path@));
    assert(bank::span_views(spans@) =~= m@.spans.push(next@.lines.len() as int));
    Ok(Merged { statement, paths, spans })
}

/// Joins each account's monthly statements per currency. Each must start the
/// day after the one before ends, on the balance it closed on.
pub fn merge(statements: Vec<(BankStatement, String)>) -> (r: Result<Vec<Merged>, Refusal>)
    requires
        issued(file_views(statements@)),
    ensures
        match r {
            Ok(v) => merged(file_views(statements@)) == Ok::<Seq<MergedV>, Seq<char>>(
                bank::merged_views(v@),
            ),
            Err(e) => merged(file_views(statements@)) == Err::<Seq<MergedV>, Seq<char>>(e@),
        },
{
    let ghost given = statements@;
    let ghost all = file_views(given);
    let ghost keys = month_keys(all);
    let mut rest = statements;
    let mut keyed: Vec<(Key, (BankStatement, String))> = Vec::new();
    let ghost mut k: int = 0;
    assert(rest@ =~= given.skip(0));
    while rest.len() > 0
        invariant
            0 <= k <= given.len(),
            rest@ == given.skip(k),
            all == file_views(given),
            keys == month_keys(all),
            issued(all),
            keyed@.len() == k,
            forall|i: int|
                0 <= i < k ==> (#[trigger] keyed@[i]).1 == given[i] && keyed@[i].0@ == keys[i],
        decreases rest@.len(),
    {
        let (s, path) = rest.remove(0);
        assert((s, path) == given[k]);
        assert(all[k] == (s@, path@));
        assert(s@.periods.len() > 0);
        let start = s.periods[0].start;
        assert(s@.periods[0] == s.periods@[0]@);
        let key = Key {
            text: text::copy(s.account_no.as_str()),
            numbers: (s.currency.rank() as i64, start.number() as i64, 0, 0),
        };
        assert(key@ == keys[k]);
        keyed.push((key, (s, path)));
        assert(rest@ =~= given.skip(k + 1));
        proof {
            k = k + 1;
        }
    }
    assert(sort::keys_of(keyed@) =~= keys);
    let ghost ord = sort::order(keys);
    let mut months = sort::sort(keyed);
    let ghost sorted = sort::arranged(all, ord);
    proof {
        sort::order_is_a_permutation(keys);
        assert forall|i: int| 0 <= i < months@.len() implies ((#[trigger] months@[i]).1.0@, months@[i].1.1@) == sorted[i]
            && sorted[i].0.periods.len() > 0 by {
            assert(months@[i] == keyed@[ord[i]]);
            assert(sorted[i] == all[ord[i]]);
        }
    }
    let mut out: Vec<Merged> = Vec::new();
    let ghost months_all = months@;
    let ghost mut n: int = 0;
    assert(months@ =~= months_all.skip(0));
    assert(bank::merged_views(out@) =~= Seq::empty());
    while months.len() > 0
        invariant
            0 <= n <= months_all.len(),
            months@ == months_all.skip(n),
            months_all.len() == sorted.len(),
            merged(file_views(statements@)) == months_joined(sorted),
            forall|i: int|
                0 <= i < months_all.len() ==> ((#[trigger] months_all[i]).1.0@, months_all[i].1.1@)
                    == sorted[i] && sorted[i].0.periods.len() > 0,
            months_joined(sorted.take(n)) == Ok::<Seq<MergedV>, Seq<char>>(
                bank::merged_views(out@),
            ),
            forall|i: int| 0 <= i < out@.len() ==> (#[trigger] out@[i])@.statement.periods.len() > 0,
        decreases months@.len(),
    {
        let (_, (s, path)) = months.remove(0);
        let ghost done = out@;
        proof {
            assert(months_all[n].1 == (s, path));
            assert(sorted[n] == (s@, path@));
            assert(sorted.take(n + 1).drop_last() =~= sorted.take(n));
            assert(sorted.take(n + 1).last() == sorted[n]);
            assert(months@ =~= months_all.skip(n + 1));
        }
        let joins = if out.len() > 0 {
            let last: usize = out.len() - 1;
            assert(bank::merged_views(out@).last() == out@[last as int]@);
            text::same_text(
                out[last].statement.account_no.as_str(),
                s.account_no.as_str(),
            ) && out[last].statement.currency == s.currency
        } else {
            false
        };
        if joins {
            let m = out.pop().unwrap();
            assert(bank::merged_views(out@) =~= bank::merged_views(done).drop_last());
            match follow(m, s, path) {
                Ok(m) => {
                    let ghost popped = out@;
                    out.push(m);
                    assert(bank::merged_views(out@) =~= bank::merged_views(popped).push(m@));
                },
                Err(e) => {
                    proof {
                        joined_refused_stays(sorted, n + 1);
                    }
                    return Err(e);
                },
            }
        } else {
            let count: usize = s.lines.len();
            let mut paths: Vec<String> = Vec::new();
            let mut spans: Vec<usize> = Vec::new();
            paths.push(path);
            spans.push(count);
            assert(text::texts(paths@) =~= seq![path@]);
            assert(bank::span_views(spans@) =~= seq![s@.lines.len() as int]);
            let m = Merged { statement: s, paths, spans };
            out.push(m);
            assert(bank::merged_views(out@) =~= bank::merged_views(done).push(m@));
        }
        proof {
            n = n + 1;
        }
    }
    assert(sorted.take(n) =~= sorted);
    Ok(out)
}

/// The text of a statement's document, with where it lies.
pub struct Source {
    pub text: String,
    /// The name of the folder the document lies in.
    pub folder: Option<String>,
    pub path: String,
}

#[verifier::ext_equal]
pub struct SourceV {
    pub text: Seq<char>,
    pub folder: Option<Seq<char>>,
    pub path: Seq<char>,
}

impl View for Source {
    type V = SourceV;

    open spec fn view(&self) -> SourceV {
        SourceV {
            text: self.text@,
            folder: match self.folder {
                Some(name) => Some(name@),
                None => None,
            },
            path: self.path@,
        }
    }
}

pub open spec fn source_views(v: Seq<Source>) -> Seq<SourceV> {
    v.map_values(|x: Source| x@)
}

/// `v`, each with the path `path`.
pub open spec fn filed(v: Seq<StatementV>, path: Seq<char>) -> Seq<(StatementV, Seq<char>)> {
    v.map_values(|s: StatementV| (s, path))
}

/// The statements the documents `sources` hold, with their paths. Refused as
/// the first document that cannot be read is.
pub open spec fn months_in(sources: Seq<SourceV>) -> Result<
    Seq<(StatementV, Seq<char>)>,
    Seq<char>,
>
    decreases sources.len(),
{
    if sources.len() == 0 {
        Ok(Seq::empty())
    } else {
        match months_in(sources.drop_last()) {
            Err(e) => Err(e),
            Ok(before) => match statements(
                sources.last().text,
                sources.last().folder,
                sources.last().path,
            ) {
                Err(e) => Err(e),
                Ok(v) => Ok(before + filed(v, sources.last().path)),
            },
        }
    }
}

/// The documents' statements, joined per account and currency.
pub open spec fn merged_in(sources: Seq<SourceV>) -> Result<Seq<MergedV>, Seq<char>> {
    match months_in(sources) {
        Err(e) => Err(e),
        Ok(v) => merged(v),
    }
}

proof fn refused_months_stay(sources: Seq<SourceV>, n: int)
    requires
        0 <= n <= sources.len(),
        months_in(sources.take(n)) is Err,
    ensures
        months_in(sources) == months_in(sources.take(n)),
    decreases sources.len(),
{
    if n == sources.len() {
        assert(sources.take(n) =~= sources);
    } else {
        assert(sources.drop_last().take(n) =~= sources.take(n));
        refused_months_stay(sources.drop_last(), n);
    }
}

/// Reads the documents and joins each account's monthly statements per
/// currency. Each must start the day after the one before ends, on the balance
/// it closed on.
pub fn load_merged(sources: &Vec<Source>) -> (r: Result<Vec<Merged>, Refusal>)
    ensures
        match r {
            Ok(v) => merged_in(source_views(sources@)) == Ok::<Seq<MergedV>, Seq<char>>(
                bank::merged_views(v@),
            ),
            Err(e) => merged_in(source_views(sources@)) == Err::<Seq<MergedV>, Seq<char>>(e@),
        },
{
    let ghost all = source_views(sources@);
    let mut out: Vec<(BankStatement, String)> = Vec::new();
    let mut i: usize = 0;
    assert(file_views(out@) =~= Seq::<(StatementV, Seq<char>)>::empty());
    while i < sources.len()
        invariant
            0 <= i <= sources@.len(),
            all == source_views(sources@),
            months_in(all.take(i as int)) == Ok::<Seq<(StatementV, Seq<char>)>, Seq<char>>(
                file_views(out@),
            ),
            issued(file_views(out@)),
        decreases sources@.len() - i,
    {
        let ghost before = file_views(out@);
        let source = &sources[i];
        proof {
            assert(all[i as int] == source@);
            assert(all.take(i as int + 1).drop_last() =~= all.take(i as int));
            assert(all.take(i as int + 1).last() == all[i as int]);
        }
        let folder: Option<&str> = match &source.folder {
            Some(name) => Some(name.as_str()),
            None => None,
        };
        let mut rest = match load(source.text.as_str(), folder, source.path.as_str()) {
            Ok(v) => v,
            Err(e) => {
                proof {
                    refused_months_stay(all, i as int + 1);
                }
                return Err(e);
            },
        };
        let ghost read = statement_views(rest@);
        let ghost mut n: int = 0;
        assert(statement_views(rest@) =~= read.skip(0));
        assert(file_views(out@) =~= before + filed(read.take(0), source.path@));
        while rest.len() > 0
            invariant
                0 <= n <= read.len(),
                statement_views(rest@) == read.skip(n),
                file_views(out@) == before + filed(read.take(n), source.path@),
                forall|k: int| 0 <= k < rest@.len() ==> (#[trigger] rest@[k])@.periods.len() == 1,
                issued(file_views(out@)),
            decreases rest@.len(),
        {
            let ghost left = rest@;
            let ghost done = file_views(out@);
            let s = rest.remove(0);
            let path = text::copy(source.path.as_str());
            proof {
                assert(s == left[0]);
                assert(s@ == statement_views(left)[0]);
                assert(read.skip(n).len() == left.len());
                assert(s@ == read[n]);
                assert(statement_views(rest@) =~= statement_views(left).skip(1));
                assert(statement_views(rest@) =~= read.skip(n + 1));
                assert(read.take(n + 1) =~= read.take(n).push(s@));
                assert forall|k: int| 0 <= k < rest@.len() implies (#[trigger] rest@[k])@.periods.len()
                    == 1 by {
                    assert(rest@[k] == left[k + 1]);
                }
            }
            out.push((s, path));
            proof {
                assert(file_views(out@) =~= done.push((s@, path@)));
                assert(file_views(out@) =~= before + filed(read.take(n + 1), source.path@));
                n = n + 1;
            }
        }
        assert(read.take(n) =~= read);
        i = i + 1;
    }
    assert(all.take(i as int) =~= all);
    merge(out)
}

/// Does each period start the day after the one before ends, on the balance it
/// closed on?
pub open spec fn follow_on(periods: Seq<PeriodV>) -> bool {
    forall|i: int|
        #![trigger periods[i]]
        0 <= i && i + 1 < periods.len() ==> date::after(periods[i].end) == Some(
            periods[i + 1].start,
        ) && amount::equal(periods[i + 1].opening, periods[i].closing)
}

/// Does every statement cover one period?
pub open spec fn monthly(v: Seq<(StatementV, Seq<char>)>) -> bool {
    forall|i: int| 0 <= i < v.len() ==> (#[trigger] v[i]).0.periods.len() == 1
}

proof fn joined_months_follow_on(months: Seq<(StatementV, Seq<char>)>)
    requires
        monthly(months),
        months_joined(months) is Ok,
    ensures
        forall|i: int|
            0 <= i < months_joined(months)->Ok_0.len() ==> (#[trigger] months_joined(
                months,
            )->Ok_0[i]).statement.periods.len() > 0 && follow_on(
                months_joined(months)->Ok_0[i].statement.periods,
            ),
    decreases months.len(),
{
    if months.len() > 0 {
        let front = months.drop_last();
        assert(monthly(front)) by {
            assert forall|i: int| 0 <= i < front.len() implies (
            #[trigger] front[i]).0.periods.len() == 1 by {
                assert(front[i] == months[i]);
            }
        }
        joined_months_follow_on(front);
        let before = months_joined(front)->Ok_0;
        let all = months_joined(months)->Ok_0;
        let (s, path) = months.last();
        assert(months[months.len() - 1].0.periods.len() == 1);
        assert forall|i: int| 0 <= i < all.len() implies (
        #[trigger] all[i]).statement.periods.len() > 0 && follow_on(all[i].statement.periods) by {
            if i < all.len() - 1 {
                assert(all[i] == before[i]);
            } else if all.len() == before.len() {
                let m = before[i];
                let old = m.statement.periods;
                let new = all[i].statement.periods;
                assert(m == before.last());
                assert(new == old + s.periods);
                assert forall|k: int|
                    #![trigger new[k]]
                    0 <= k && k + 1 < new.len() implies date::after(new[k].end) == Some(
                    new[k + 1].start,
                ) && amount::equal(new[k + 1].opening, new[k].closing) by {
                    assert(new[k] == old[k]);
                    if k + 1 < old.len() {
                        assert(new[k + 1] == old[k + 1]);
                    } else {
                        assert(old[k] == old.last());
                        assert(new[k + 1] == s.periods[0]);
                    }
                }
            }
        }
    }
}

/// A joined statement's months have no gap between them: each starts the day
/// after the one before ends, on the balance it closed on.
pub proof fn joined_statements_have_no_gap(v: Seq<(StatementV, Seq<char>)>)
    requires
        monthly(v),
        merged(v) is Ok,
    ensures
        forall|i: int|
            0 <= i < merged(v)->Ok_0.len() ==> follow_on(
                (#[trigger] merged(v)->Ok_0[i]).statement.periods,
            ),
{
    let keys = month_keys(v);
    let by = sort::order(keys);
    let months = sort::arranged(v, by);
    sort::order_is_a_permutation(keys);
    assert forall|i: int| 0 <= i < months.len() implies (#[trigger] months[i]).0.periods.len()
        == 1 by {
        assert(months[i] == v[by[i]]);
    }
    joined_months_follow_on(months);
}

/// A row's line withdraws what the row takes and deposits what it brings, on
/// its day.
pub proof fn a_row_withdraws_or_deposits(row: RowV, balance: Dec)
    ensures
        ({
            let l = line_of(row, balance);
            &&& amount::worth(l.deposit) - amount::worth(l.withdrawal) == amount::worth(row.amount)
            &&& !l.deposit.negative
            &&& !l.withdrawal.negative
            &&& l.deposit.magnitude == 0 || l.withdrawal.magnitude == 0
            &&& l.balance == balance
            &&& l.book_date == row.date
            &&& l.description == row.description
            &&& l.info == row.remark
        }),
{
    amount::negated_worth(row.amount);
    amount::zero_worth(amount::zero());
}

/// The balance before the row at `i`.
pub open spec fn before_row(opening: Dec, lines: Seq<LineV>, i: int) -> Dec {
    if i == 0 {
        opening
    } else {
        lines[i - 1].balance
    }
}

proof fn chained_rows(rows: Seq<RowV>, opening: Dec, i: int)
    requires
        chained(rows, opening) is Ok,
        0 <= i < rows.len(),
    ensures
        ({
            let (last, lines) = chained(rows, opening)->Ok_0;
            &&& lines.len() == rows.len()
            &&& last == lines.last().balance
            &&& lines[i] == line_of(rows[i], lines[i].balance)
            &&& amount::sum(before_row(opening, lines, i), rows[i].amount) == Some(
                lines[i].balance,
            )
            &&& rows[i].balance matches Some(printed) ==> amount::worth(printed) == amount::worth(
                lines[i].balance,
            )
        }),
    decreases rows.len(),
{
    reveal_with_fuel(chained, 2);
    if i < rows.len() - 1 {
        chained_rows(rows.drop_last(), opening, i);
        if i > 0 {
            chained_rows(rows.drop_last(), opening, i - 1);
        }
    } else if rows.len() > 1 {
        chained_rows(rows.drop_last(), opening, rows.len() - 2);
    }
}

/// Each row takes the balance before it to its own by its amount; a printed
/// balance is that one. The last is what the statement closes on.
pub proof fn rows_carry_the_balance(rows: Seq<RowV>, closing: Dec, i: int)
    requires
        chain(rows, closing) is Ok,
        0 <= i < rows.len(),
    ensures
        ({
            let (opening, lines) = chain(rows, closing)->Ok_0;
            &&& lines.len() == rows.len()
            &&& lines[i].book_date == rows[i].date
            &&& lines[i].description == rows[i].description
            &&& amount::worth(lines[i].deposit) - amount::worth(lines[i].withdrawal)
                == amount::worth(rows[i].amount)
            &&& amount::sum(before_row(opening, lines, i), rows[i].amount) == Some(
                lines[i].balance,
            )
            &&& rows[i].balance matches Some(printed) ==> amount::worth(printed) == amount::worth(
                lines[i].balance,
            )
            &&& amount::worth(lines.last().balance) == amount::worth(closing)
        }),
{
    let opening = opening_of(rows, closing)->0;
    chained_rows(rows, opening, i);
    a_row_withdraws_or_deposits(rows[i], (chained(rows, opening)->Ok_0).1[i].balance);
}

/// What rows move together.
pub open spec fn rows_move(rows: Seq<RowV>) -> int
    decreases rows.len(),
{
    if rows.len() == 0 {
        0
    } else {
        rows_move(rows.drop_last()) + amount::worth(rows.last().amount)
    }
}

proof fn chained_exactly(rows: Seq<RowV>, opening: Dec)
    requires
        chained(rows, opening) is Ok,
        forall|i: int|
            #![trigger rows[i]]
            0 <= i < rows.len() ==> amount::adds_exactly(
                before_row(opening, (chained(rows, opening)->Ok_0).1, i),
                rows[i].amount,
            ),
    ensures
        amount::worth((chained(rows, opening)->Ok_0).0) == amount::worth(opening) + rows_move(rows),
    decreases rows.len(),
{
    if rows.len() > 0 {
        let shorter = rows.drop_last();
        let n = rows.len() - 1;
        let lines = (chained(rows, opening)->Ok_0).1;
        let before = (chained(shorter, opening)->Ok_0).1;
        chained_rows(rows, opening, n);
        assert forall|i: int|
            #![trigger shorter[i]]
            0 <= i < shorter.len() implies amount::adds_exactly(
            before_row(opening, before, i),
            shorter[i].amount,
        ) by {
            assert(shorter[i] == rows[i]);
            chained_rows(shorter, opening, i);
            assert(before_row(opening, before, i) == before_row(opening, lines, i));
        }
        chained_exactly(shorter, opening);
        if n > 0 {
            chained_rows(shorter, opening, n - 1);
        }
        assert(amount::adds_exactly(before_row(opening, lines, n), rows[n].amount));
    }
}

/// Where nothing is rounded, a section opens on what its rows take to its
/// closing.
pub proof fn a_section_opens_on_what_its_rows_carry(rows: Seq<RowV>, closing: Dec)
    requires
        chain(rows, closing) is Ok,
        forall|i: int|
            #![trigger rows[i]]
            0 <= i < rows.len() ==> amount::adds_exactly(
                before_row((chain(rows, closing)->Ok_0).0, (chain(rows, closing)->Ok_0).1, i),
                rows[i].amount,
            ),
    ensures
        amount::worth((chain(rows, closing)->Ok_0).0) + rows_move(rows) == amount::worth(closing),
{
    chained_exactly(rows, (chain(rows, closing)->Ok_0).0);
}

/// An amount behind a minus is the same amount the other way.
pub proof fn a_minus_turns_an_amount(token: Seq<char>)
    requires
        token.len() > 0,
        token[0] == '$',
    ensures
        money(seq!['-'] + token) is Some <==> money(token) is Some,
        money(token) matches Some(a) ==> amount::worth(money(seq!['-'] + token)->0)
            == -amount::worth(a),
        money(token) matches Some(a) ==> amount::spelled(
            text::kept(token.skip(1), Class::NotComma),
        ) == Some(a),
{
    reveal_strlit("-");
    reveal_strlit("$");
    assert("-"@ =~= seq!['-']);
    assert("$"@ =~= seq!['$']);
    let whole = seq!['-'] + token;
    assert(whole.subrange(0, 1) =~= seq!['-']);
    assert(whole.skip(1) =~= token);
    assert(token.subrange(0, 1) =~= seq!['$']);
    assert(token.subrange(0, 1)[0] != '-');
    assert(!text::starts(token, "-"@)) by {
        if text::starts(token, "-"@) {
            assert(token.subrange(0, 1)[0] == '-');
        }
    }
    if let Some(a) = money(token) {
        amount::negated_worth(a);
    }
}

/// A row is dated by its first word and moves the first amount among its words;
/// a second amount right behind is the balance it prints.
pub proof fn a_row_says_what_its_words_say(line: Seq<char>)
    requires
        row(line) is Ok,
    ensures
        ({
            let words = text::words(line);
            let r = row(line)->Ok_0;
            &&& words.len() > 2
            &&& date::parsed_date(words[0], "%Y.%m.%d"@) matches Some(day) && r.date == day
            &&& exists|at: int|
                1 < at < words.len() && #[trigger] money(words[at]) == Some(r.amount) && (forall|
                    i: int,
                |
                    0 <= i < at ==> money(#[trigger] words[i]) is None) && r.balance == (if at + 1
                    < words.len() {
                    money(words[at + 1])
                } else {
                    None
                })
        }),
{
    let words = text::words(line);
    first_money_is_first(words, 0);
    let at = first_money(words, 0)->0;
    assert(money(words[at]) == Some(row(line)->Ok_0.amount));
}

proof fn first_money_is_first(tokens: Seq<Seq<char>>, from: int)
    requires
        0 <= from,
    ensures
        first_money(tokens, from) matches Some(at) ==> from <= at < tokens.len() && money(
            tokens[at],
        ) is Some && forall|i: int| from <= i < at ==> money(#[trigger] tokens[i]) is None,
    decreases tokens.len() - from,
{
    if from < tokens.len() && money(tokens[from]) is None {
        first_money_is_first(tokens, from + 1);
    }
}

/// Each currency of a document is a statement of the document's days, which
/// opens and closes on what that currency does and holds its lines.
pub proof fn each_section_is_a_statement(
    s: Seq<char>,
    name: Option<Seq<char>>,
    path: Seq<char>,
    i: int,
)
    requires
        statements(s, name, path) is Ok,
        document(s) is Ok,
        0 <= i < document(s)->Ok_0.sections.len(),
    ensures
        ({
            let d = document(s)->Ok_0;
            let x = d.sections[i];
            let st = statements(s, name, path)->Ok_0[i];
            &&& statements(s, name, path)->Ok_0.len() == d.sections.len()
            &&& st.bank == Bank::LineBank
            &&& st.currency == x.currency
            &&& st.lines == x.lines
            &&& st.period_end == Some(d.end)
            &&& st.periods.len() == 1
            &&& st.periods[0].start == d.start
            &&& st.periods[0].end == d.end
            &&& st.periods[0].opening == x.opening
            &&& st.periods[0].closing == x.closing
            &&& cathay::fits_masked(d.account_mask, st.account_no)
        }),
{
}

/// The TWD section of a document closes on its account's balance and chains its
/// rows to it; a total that is printed is that balance.
pub proof fn a_document_closes_on_its_account(s: Scan)
    requires
        finished(s) is Ok,
    ensures
        ({
            let d = finished(s)->Ok_0;
            &&& s.period == Some((d.start, d.end))
            &&& s.account matches Some((mask, closing)) && mask == d.account_mask
                && d.sections[0].closing == closing && (s.total matches Some(t) ==> amount::worth(
                t,
            ) == amount::worth(closing))
            &&& d.sections[0].currency == Currency::TWD
            &&& chain(s.rows, d.sections[0].closing) == Ok::<(Dec, Seq<LineV>), Seq<char>>(
                (d.sections[0].opening, d.sections[0].lines),
            )
            &&& d.sections.skip(1) == s.foreign
        }),
{
    let d = finished(s)->Ok_0;
    assert(d.sections.skip(1) =~= s.foreign);
}

} // verus!
