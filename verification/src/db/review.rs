//! What the review queue writes: an edit or split of a transaction's legs in
//! place, a confirmation, and a hand-entered transaction. Each commits only
//! with its event and only if it breaks no balance a statement, 天天記帳 or a
//! count vouches for. Refusals are worded for the page that shows them.

use vstd::prelude::*;

use crate::accounts;
use crate::amount;
use crate::amount::{Amount, Dec};
use crate::assertion::{AssertionSource, AssertionV, BalanceAssertion};
use crate::currency;
use crate::currency::Currency;
use crate::date;
use crate::date::Date;
use crate::refusal;
use crate::refusal::Refusal;
use crate::text;
use crate::text::Class;

use super::check;
use super::check::{Figure, FigureV, Mismatch, MismatchV};
use super::events;
use super::events::{Change, Snapshot, SnapshotV};
use super::holdings::{HoldingAssertion, HoldingV};
use super::hledger;
use super::query;
use super::query::AccountType;
use super::sums;
use super::sums::Tally;

verus! {

/// One leg as the editor submits it.
#[derive(Clone, Debug, PartialEq)]
pub struct LegEdit {
    /// The posting it rewrites; `None` for a leg the edit adds.
    pub posting_id: Option<i64>,
    pub account: String,
    pub amount: Amount,
    pub currency: Currency,
}

#[verifier::ext_equal]
pub struct LegEditV {
    pub posting_id: Option<i64>,
    pub account: Seq<char>,
    pub amount: Dec,
    pub currency: Currency,
}

impl View for LegEdit {
    type V = LegEditV;

    open spec fn view(&self) -> LegEditV {
        LegEditV {
            posting_id: self.posting_id,
            account: self.account@,
            amount: self.amount@,
            currency: self.currency,
        }
    }
}

pub open spec fn leg_views(v: Seq<LegEdit>) -> Seq<LegEditV> {
    v.map_values(|l: LegEdit| l@)
}

/// A transaction's legs and note as they should stand. Legs it leaves out are
/// removed; the rest keep their row, tags and, if unchanged, origin.
#[derive(Clone, Debug, PartialEq)]
pub struct Edit {
    pub narration: Option<String>,
    pub legs: Vec<LegEdit>,
    /// Mark it reviewed in the same write.
    pub confirm: bool,
}

/// A transaction entered by hand: `amount` leaves `account` for `counter`, or
/// for an expense `category`; an income category brings it in. A negative
/// amount runs the other way.
#[derive(Clone, Debug, PartialEq)]
pub struct Manual {
    pub date: Date,
    pub amount: Amount,
    pub currency: Currency,
    pub account: String,
    pub category: Option<String>,
    pub counter: Option<String>,
    pub note: Option<String>,
}

/// A posting of the transaction, as the database holds it.
pub struct PostingRow {
    pub id: i64,
    pub path: String,
    pub amount: String,
    pub currency: String,
}

pub struct PostingRowV {
    pub id: int,
    pub path: Seq<char>,
    pub amount: Seq<char>,
    pub currency: Seq<char>,
}

impl View for PostingRow {
    type V = PostingRowV;

    open spec fn view(&self) -> PostingRowV {
        PostingRowV {
            id: self.id as int,
            path: self.path@,
            amount: self.amount@,
            currency: self.currency@,
        }
    }
}

pub open spec fn row_views(v: Seq<PostingRow>) -> Seq<PostingRowV> {
    v.map_values(|r: PostingRow| r@)
}

/// An account, as the database holds it.
pub struct AccountRow {
    pub path: String,
    pub id: i64,
    pub acct_type: String,
    pub closed: bool,
}

pub struct AccountRowV {
    pub path: Seq<char>,
    pub id: int,
    pub acct_type: Seq<char>,
    pub closed: bool,
}

impl View for AccountRow {
    type V = AccountRowV;

    open spec fn view(&self) -> AccountRowV {
        AccountRowV {
            path: self.path@,
            id: self.id as int,
            acct_type: self.acct_type@,
            closed: self.closed,
        }
    }
}

pub open spec fn account_views(v: Seq<AccountRow>) -> Seq<AccountRowV> {
    v.map_values(|r: AccountRow| r@)
}

/// An account a leg is booked on.
#[derive(Clone, Copy, PartialEq, Eq, Structural, Debug)]
pub struct Account {
    pub id: i64,
    pub account_type: AccountType,
    pub closed: bool,
}

/// Where the account `path` stands among the rows, from `from` on.
pub open spec fn row_at(rows: Seq<AccountRowV>, path: Seq<char>, from: int) -> Option<int>
    decreases rows.len() - from,
{
    if from < 0 || from >= rows.len() {
        None
    } else if rows[from].path == path {
        Some(from)
    } else {
        row_at(rows, path, from + 1)
    }
}

/// The account at `path`, with its id.
pub open spec fn account_in(rows: Seq<AccountRowV>, path: Seq<char>) -> Result<
    (int, AccountType, bool),
    Seq<char>,
> {
    match row_at(rows, path, 0) {
        None => Err("查無帳戶："@ + path),
        Some(i) => match query::type_of(rows[i].acct_type) {
            None => Err(events::misread("account type"@, rows[i].acct_type)),
            Some(t) => Ok((rows[i].id, t, rows[i].closed)),
        },
    }
}

/// The account at `path`, which a new leg may post to.
pub open spec fn open_account_in(rows: Seq<AccountRowV>, path: Seq<char>) -> Result<
    (int, AccountType, bool),
    Seq<char>,
> {
    match account_in(rows, path) {
        Err(e) => Err(e),
        Ok(a) => if a.2 {
            Err("帳戶已結清："@ + path)
        } else {
            Ok(a)
        },
    }
}

/// A message and a text behind it.
fn says(message: &str, s: &str) -> (r: Refusal)
    ensures
        r@ == message@ + s@,
{
    let mut out = text::copy(message);
    out.append(s);
    Refusal { message: out }
}

/// The account at `path`.
pub fn account(rows: &Vec<AccountRow>, path: &str) -> (r: Result<Account, Refusal>)
    ensures
        match r {
            Ok(a) => account_in(account_views(rows@), path@) == Ok::<
                (int, AccountType, bool),
                Seq<char>,
            >((a.id as int, a.account_type, a.closed)),
            Err(e) => account_in(account_views(rows@), path@) == Err::<
                (int, AccountType, bool),
                Seq<char>,
            >(e@),
        },
{
    let ghost all = account_views(rows@);
    let mut i: usize = 0;
    while i < rows.len()
        invariant
            i <= rows@.len(),
            all == account_views(rows@),
            row_at(all, path@, 0) == row_at(all, path@, i as int),
        decreases rows@.len() - i,
    {
        let r = &rows[i];
        assert(all[i as int] == r@);
        if text::same_text(r.path.as_str(), path) {
            return match AccountType::parse(r.acct_type.as_str()) {
                Some(account_type) => Ok(Account { id: r.id, account_type, closed: r.closed }),
                None => Err(events::misreads("account type", r.acct_type.as_str())),
            };
        }
        i = i + 1;
    }
    Err(says("查無帳戶：", path))
}

/// An account a new leg may post to.
pub fn open_account(rows: &Vec<AccountRow>, path: &str) -> (r: Result<Account, Refusal>)
    ensures
        match r {
            Ok(a) => open_account_in(account_views(rows@), path@) == Ok::<
                (int, AccountType, bool),
                Seq<char>,
            >((a.id as int, a.account_type, a.closed)),
            Err(e) => open_account_in(account_views(rows@), path@) == Err::<
                (int, AccountType, bool),
                Seq<char>,
            >(e@),
        },
{
    let a = account(rows, path)?;
    if a.closed {
        Err(says("帳戶已結清：", path))
    } else {
        Ok(a)
    }
}

/// The amounts and currencies of the legs.
pub open spec fn amounts_of(legs: Seq<LegEditV>) -> Seq<(Dec, Currency)> {
    legs.map_values(|l: LegEditV| (l.amount, l.currency))
}

/// The first `n` legs move something and their sums are within range.
pub open spec fn summed(legs: Seq<(Dec, Currency)>, n: int) -> Result<(), Seq<char>>
    decreases n,
{
    if n <= 0 {
        Ok(())
    } else {
        match summed(legs, n - 1) {
            Err(e) => Err(e),
            Ok(()) => if legs[n - 1].0.magnitude == 0 {
                Err("金額不可為 0"@)
            } else if sums::tally(legs.take(n)) is None {
                Err(refusal::out_of_range())
            } else {
                Ok(())
            },
        }
    }
}

/// Do the legs, of which there is one at least, sum to 0 in each currency?
pub open spec fn balance(legs: Seq<(Dec, Currency)>) -> Result<(), Seq<char>> {
    match summed(legs, legs.len() as int) {
        Err(e) => Err(e),
        Ok(()) => if legs.len() == 0 {
            Err("交易沒有任何一筆"@)
        } else {
            let t = sums::tally(legs)->0;
            if sums::is_level(t) {
                Ok(())
            } else {
                Err("借貸不平衡，差 "@ + text::joined(sums::left(t), "、"@))
            }
        },
    }
}

proof fn refused_sums_stay(legs: Seq<(Dec, Currency)>, n: int)
    requires
        0 <= n <= legs.len(),
        summed(legs, n) is Err,
    ensures
        summed(legs, legs.len() as int) == summed(legs, n),
    decreases legs.len() - n,
{
    if n < legs.len() {
        refused_sums_stay(legs, n + 1);
    }
}

/// Do the legs sum to 0 in each currency?
pub fn balanced(legs: &Vec<LegEdit>) -> (r: Result<(), Refusal>)
    ensures
        match r {
            Ok(()) => balance(amounts_of(leg_views(legs@))) == Ok::<(), Seq<char>>(()),
            Err(e) => balance(amounts_of(leg_views(legs@))) == Err::<(), Seq<char>>(e@),
        },
{
    let ghost all = amounts_of(leg_views(legs@));
    let mut t = Tally::new();
    let mut i: usize = 0;
    assert(all.take(0) =~= Seq::empty());
    while i < legs.len()
        invariant
            i <= legs@.len(),
            all == amounts_of(leg_views(legs@)),
            summed(all, i as int) == Ok::<(), Seq<char>>(()),
            sums::tally(all.take(i as int)) == Some(t@),
        decreases legs@.len() - i,
    {
        let l = &legs[i];
        assert(all[i as int] == (l.amount@, l.currency));
        assert(all.take(i as int + 1).drop_last() =~= all.take(i as int));
        if l.amount.is_zero() {
            proof {
                refused_sums_stay(all, i as int + 1);
            }
            return Err(Refusal::new("金額不可為 0"));
        }
        if !t.add_amount(l.currency, &l.amount) {
            proof {
                refused_sums_stay(all, i as int + 1);
            }
            return Err(Refusal::out_of_range());
        }
        i = i + 1;
    }
    assert(all.take(i as int) =~= all);
    if legs.len() == 0 {
        return Err(Refusal::new("交易沒有任何一筆"));
    }
    let off = t.left();
    if off.len() == 0 {
        Ok(())
    } else {
        Err(says("借貸不平衡，差 ", text::join_all(&off, "、").as_str()))
    }
}

/// Where the posting `id` stands among the rows, from `from` on.
pub open spec fn posting_at(rows: Seq<PostingRowV>, id: int, from: int) -> Option<int>
    decreases rows.len() - from,
{
    if from < 0 || from >= rows.len() {
        None
    } else if rows[from].id == id {
        Some(from)
    } else {
        posting_at(rows, id, from + 1)
    }
}

/// The postings the first `n` legs rewrite, each once.
pub open spec fn kept(rows: Seq<PostingRowV>, legs: Seq<LegEditV>, n: int) -> Result<
    Seq<int>,
    Seq<char>,
>
    decreases n,
{
    if n <= 0 {
        Ok(Seq::empty())
    } else {
        match kept(rows, legs, n - 1) {
            Err(e) => Err(e),
            Ok(ids) => match legs[n - 1].posting_id {
                None => Ok(ids),
                Some(pid) => if posting_at(rows, pid as int, 0) is None || ids.contains(
                    pid as int,
                ) {
                    Err("第 "@ + text::signed_digits(pid as int) + " 筆不屬於這筆交易"@)
                } else {
                    Ok(ids.push(pid as int))
                },
            },
        }
    }
}

/// The row a leg rewrites.
pub open spec fn rewritten(rows: Seq<PostingRowV>, l: LegEditV) -> Option<PostingRowV> {
    match l.posting_id {
        None => None,
        Some(pid) => match posting_at(rows, pid as int, 0) {
            Some(i) => Some(rows[i]),
            None => None,
        },
    }
}

/// Does a leg leave its row as it is?
pub open spec fn unchanged(rows: Seq<PostingRowV>, l: LegEditV) -> bool {
    &&& rewritten(rows, l) matches Some(r)
    &&& r.path == l.account
    &&& amount::spelled(r.amount) matches Some(a)
    &&& amount::equal(a, l.amount)
    &&& r.currency == currency::code(l.currency)
}

/// Does a leg stay on its row's account?
pub open spec fn stays(rows: Seq<PostingRowV>, l: LegEditV) -> bool {
    rewritten(rows, l) matches Some(r) && r.path == l.account
}

/// A leg to write: over the posting, or as a new one.
#[derive(Clone, Debug, PartialEq)]
pub struct Write {
    pub posting_id: Option<i64>,
    pub account_id: i64,
    pub amount: Amount,
    pub currency: Currency,
}

pub struct WriteV {
    pub posting_id: Option<i64>,
    pub account_id: int,
    pub amount: Dec,
    pub currency: Currency,
}

impl View for Write {
    type V = WriteV;

    open spec fn view(&self) -> WriteV {
        WriteV {
            posting_id: self.posting_id,
            account_id: self.account_id as int,
            amount: self.amount@,
            currency: self.currency,
        }
    }
}

pub open spec fn write_views(v: Seq<Write>) -> Seq<WriteV> {
    v.map_values(|w: Write| w@)
}

/// What the first `n` legs write. Changing an amount on an account keeps it;
/// moving money onto one needs it open.
pub open spec fn writes(
    accounts: Seq<AccountRowV>,
    rows: Seq<PostingRowV>,
    legs: Seq<LegEditV>,
    n: int,
) -> Result<Seq<WriteV>, Seq<char>>
    decreases n,
{
    if n <= 0 {
        Ok(Seq::empty())
    } else {
        match writes(accounts, rows, legs, n - 1) {
            Err(e) => Err(e),
            Ok(rest) => {
                let l = legs[n - 1];
                if unchanged(rows, l) {
                    Ok(rest)
                } else {
                    let target = if stays(rows, l) {
                        account_in(accounts, l.account)
                    } else {
                        open_account_in(accounts, l.account)
                    };
                    match target {
                        Err(e) => Err(e),
                        Ok(a) => Ok(
                            rest.push(
                                WriteV {
                                    posting_id: l.posting_id,
                                    account_id: a.0,
                                    amount: l.amount,
                                    currency: l.currency,
                                },
                            ),
                        ),
                    }
                }
            },
        }
    }
}

/// The postings no leg keeps.
pub open spec fn dropped(rows: Seq<PostingRowV>, ids: Seq<int>) -> Seq<int>
    decreases rows.len(),
{
    if rows.len() == 0 {
        Seq::empty()
    } else {
        let rest = dropped(rows.drop_last(), ids);
        if ids.contains(rows.last().id) {
            rest
        } else {
            rest.push(rows.last().id)
        }
    }
}

/// A note without the white space around it; a blank one is none.
pub open spec fn tidied(s: Option<Seq<char>>) -> Option<Seq<char>> {
    match s {
        None => None,
        Some(s) => if text::trimmed(s, Class::White).len() == 0 {
            None
        } else {
            Some(text::trimmed(s, Class::White))
        },
    }
}

/// What an edit writes: its legs, marked as entered by hand, the postings it
/// removes, and the note.
#[derive(Debug)]
pub struct Rewrite {
    pub writes: Vec<Write>,
    pub deletes: Vec<i64>,
    pub narration: Option<String>,
}

#[verifier::ext_equal]
pub struct RewriteV {
    pub writes: Seq<WriteV>,
    pub deletes: Seq<int>,
    pub narration: Option<Seq<char>>,
}

pub open spec fn ids(v: Seq<i64>) -> Seq<int> {
    v.map_values(|i: i64| i as int)
}

impl View for Rewrite {
    type V = RewriteV;

    open spec fn view(&self) -> RewriteV {
        RewriteV {
            writes: write_views(self.writes@),
            deletes: ids(self.deletes@),
            narration: text::opt(self.narration),
        }
    }
}

/// What an edit of the transaction with the postings `rows` writes.
pub open spec fn rewrite(
    accounts: Seq<AccountRowV>,
    rows: Seq<PostingRowV>,
    legs: Seq<LegEditV>,
    narration: Option<Seq<char>>,
) -> Result<RewriteV, Seq<char>> {
    match balance(amounts_of(legs)) {
        Err(e) => Err(e),
        Ok(()) => match kept(rows, legs, legs.len() as int) {
            Err(e) => Err(e),
            Ok(keep) => match writes(accounts, rows, legs, legs.len() as int) {
                Err(e) => Err(e),
                Ok(w) => Ok(
                    RewriteV {
                        writes: w,
                        deletes: dropped(rows, keep),
                        narration: tidied(narration),
                    },
                ),
            },
        },
    }
}

proof fn refused_keeps_stay(rows: Seq<PostingRowV>, legs: Seq<LegEditV>, n: int)
    requires
        0 <= n <= legs.len(),
        kept(rows, legs, n) is Err,
    ensures
        kept(rows, legs, legs.len() as int) == kept(rows, legs, n),
    decreases legs.len() - n,
{
    if n < legs.len() {
        refused_keeps_stay(rows, legs, n + 1);
    }
}

proof fn refused_writes_stay(
    accounts: Seq<AccountRowV>,
    rows: Seq<PostingRowV>,
    legs: Seq<LegEditV>,
    n: int,
)
    requires
        0 <= n <= legs.len(),
        writes(accounts, rows, legs, n) is Err,
    ensures
        writes(accounts, rows, legs, legs.len() as int) == writes(accounts, rows, legs, n),
    decreases legs.len() - n,
{
    if n < legs.len() {
        refused_writes_stay(accounts, rows, legs, n + 1);
    }
}

fn find_posting(rows: &Vec<PostingRow>, id: i64) -> (r: Option<usize>)
    ensures
        match r {
            Some(i) => i < rows@.len() && posting_at(row_views(rows@), id as int, 0) == Some(
                i as int,
            ),
            None => posting_at(row_views(rows@), id as int, 0) is None,
        },
{
    let ghost all = row_views(rows@);
    let mut i: usize = 0;
    while i < rows.len()
        invariant
            i <= rows@.len(),
            all == row_views(rows@),
            posting_at(all, id as int, 0) == posting_at(all, id as int, i as int),
        decreases rows@.len() - i,
    {
        assert(all[i as int] == rows@[i as int]@);
        if rows[i].id == id {
            return Some(i);
        }
        i = i + 1;
    }
    None
}

fn has_id(v: &Vec<i64>, id: i64) -> (r: bool)
    ensures
        r == ids(v@).contains(id as int),
{
    let ghost all = ids(v@);
    let mut i: usize = 0;
    while i < v.len()
        invariant
            i <= v@.len(),
            all == ids(v@),
            forall|k: int| 0 <= k < i ==> #[trigger] all[k] != id,
        decreases v@.len() - i,
    {
        assert(all[i as int] == v@[i as int]);
        if v[i] == id {
            return true;
        }
        i = i + 1;
    }
    false
}

/// A note without the white space around it; a blank one is none.
pub(crate) fn tidy(s: &Option<String>) -> (r: Option<String>)
    ensures
        text::opt(r) == tidied(text::opt(*s)),
{
    match s {
        None => None,
        Some(s) => {
            let t = text::trim(s.as_str(), Class::White);
            if t.as_str().unicode_len() == 0 {
                None
            } else {
                Some(t)
            }
        },
    }
}

/// What an edit of the transaction with the postings `rows` writes.
pub fn edit(accounts: &Vec<AccountRow>, rows: &Vec<PostingRow>, to: &Edit) -> (r: Result<
    Rewrite,
    Refusal,
>)
    ensures
        match r {
            Ok(w) => rewrite(
                account_views(accounts@),
                row_views(rows@),
                leg_views(to.legs@),
                text::opt(to.narration),
            ) == Ok::<RewriteV, Seq<char>>(w@),
            Err(e) => rewrite(
                account_views(accounts@),
                row_views(rows@),
                leg_views(to.legs@),
                text::opt(to.narration),
            ) == Err::<RewriteV, Seq<char>>(e@),
        },
{
    balanced(&to.legs)?;
    let ghost held = row_views(rows@);
    let ghost legs = leg_views(to.legs@);
    let mut keep: Vec<i64> = Vec::new();
    let mut i: usize = 0;
    assert(ids(keep@) =~= Seq::empty());
    while i < to.legs.len()
        invariant
            i <= to.legs@.len(),
            held == row_views(rows@),
            legs == leg_views(to.legs@),
            balance(amounts_of(legs)) == Ok::<(), Seq<char>>(()),
            kept(held, legs, i as int) == Ok::<Seq<int>, Seq<char>>(ids(keep@)),
        decreases to.legs@.len() - i,
    {
        let ghost before = keep@;
        assert(legs[i as int] == to.legs@[i as int]@);
        if let Some(pid) = to.legs[i].posting_id {
            if find_posting(rows, pid).is_none() || has_id(&keep, pid) {
                proof {
                    refused_keeps_stay(held, legs, i as int + 1);
                }
                let mut out = text::copy("第 ");
                out.append(text::signed_number(pid).as_str());
                out.append(" 筆不屬於這筆交易");
                return Err(Refusal { message: out });
            }
            keep.push(pid);
            assert(ids(keep@) =~= ids(before).push(pid as int));
        }
        i = i + 1;
    }
    let writes = writes_of(accounts, rows, &to.legs)?;
    let mut deletes: Vec<i64> = Vec::new();
    let mut j: usize = 0;
    assert(ids(deletes@) =~= Seq::empty());
    while j < rows.len()
        invariant
            j <= rows@.len(),
            held == row_views(rows@),
            ids(deletes@) == dropped(held.take(j as int), ids(keep@)),
        decreases rows@.len() - j,
    {
        let ghost before = deletes@;
        assert(held[j as int] == rows@[j as int]@);
        assert(held.take(j as int + 1).drop_last() =~= held.take(j as int));
        if !has_id(&keep, rows[j].id) {
            deletes.push(rows[j].id);
            assert(ids(deletes@) =~= ids(before).push(rows@[j as int].id as int));
        }
        j = j + 1;
    }
    assert(held.take(j as int) =~= held);
    Ok(Rewrite { writes, deletes, narration: tidy(&to.narration) })
}

fn writes_of(accounts: &Vec<AccountRow>, rows: &Vec<PostingRow>, legs: &Vec<LegEdit>) -> (r: Result<
    Vec<Write>,
    Refusal,
>)
    ensures
        match r {
            Ok(w) => writes(
                account_views(accounts@),
                row_views(rows@),
                leg_views(legs@),
                legs@.len() as int,
            ) == Ok::<Seq<WriteV>, Seq<char>>(write_views(w@)),
            Err(e) => writes(
                account_views(accounts@),
                row_views(rows@),
                leg_views(legs@),
                legs@.len() as int,
            ) == Err::<Seq<WriteV>, Seq<char>>(e@),
        },
{
    let ghost chart = account_views(accounts@);
    let ghost held = row_views(rows@);
    let ghost all = leg_views(legs@);
    let mut out: Vec<Write> = Vec::new();
    let mut i: usize = 0;
    assert(write_views(out@) =~= Seq::empty());
    while i < legs.len()
        invariant
            i <= legs@.len(),
            chart == account_views(accounts@),
            held == row_views(rows@),
            all == leg_views(legs@),
            writes(chart, held, all, i as int) == Ok::<Seq<WriteV>, Seq<char>>(write_views(out@)),
        decreases legs@.len() - i,
    {
        let l = &legs[i];
        let ghost before = out@;
        assert(all[i as int] == l@);
        let row: Option<usize> = match l.posting_id {
            Some(pid) => find_posting(rows, pid),
            None => None,
        };
        let (same_account, same) = match row {
            Some(k) => {
                let r = &rows[k];
                assert(held[k as int] == r@);
                let same_account = text::same_text(r.path.as_str(), l.account.as_str());
                let same_amount = match Amount::parse(r.amount.as_str()) {
                    Some(a) => a.equals(&l.amount),
                    None => false,
                };
                let same_currency = text::same_text(
                    r.currency.as_str(),
                    l.currency.text().as_str(),
                );
                (same_account, same_account && same_amount && same_currency)
            },
            None => (false, false),
        };
        assert(same == unchanged(held, l@));
        assert(same_account == stays(held, l@));
        if !same {
            let target = if same_account {
                account(accounts, l.account.as_str())
            } else {
                open_account(accounts, l.account.as_str())
            };
            match target {
                Ok(a) => {
                    let w = Write {
                        posting_id: l.posting_id,
                        account_id: a.id,
                        amount: l.amount,
                        currency: l.currency,
                    };
                    out.push(w);
                    assert(write_views(out@) =~= write_views(before).push(w@));
                },
                Err(e) => {
                    proof {
                        refused_writes_stay(chart, held, all, i as int + 1);
                    }
                    return Err(e);
                },
            }
        }
        i = i + 1;
    }
    assert(all.len() == legs@.len());
    Ok(out)
}

/// A transaction to insert, reviewed: two legs in one currency.
#[derive(Debug)]
pub struct Entry {
    pub date: Date,
    pub narration: Option<String>,
    pub currency: Currency,
    /// The account and what it is posted.
    pub legs: [(i64, Amount); 2],
}

#[verifier::ext_equal]
pub struct EntryV {
    pub date: int,
    pub narration: Option<Seq<char>>,
    pub currency: Currency,
    pub near: (int, Dec),
    pub far: (int, Dec),
}

impl View for Entry {
    type V = EntryV;

    open spec fn view(&self) -> EntryV {
        EntryV {
            date: self.date@,
            narration: text::opt(self.narration),
            currency: self.currency,
            near: (self.legs@[0].0 as int, self.legs@[0].1@),
            far: (self.legs@[1].0 as int, self.legs@[1].1@),
        }
    }
}

/// Where what an account is posted comes from or goes to, and what the account
/// is posted.
pub open spec fn far_side(accounts: Seq<AccountRowV>, m: Manual) -> Result<(int, Dec), Seq<char>> {
    match (m.category, m.counter) {
        (Some(category), None) => match open_account_in(accounts, category@) {
            Err(e) => Err(e),
            // Spent from the account; income comes into it.
            Ok(a) => if a.1 == AccountType::Expense {
                Ok((a.0, amount::negated(m.amount@)))
            } else if a.1 == AccountType::Income {
                Ok((a.0, m.amount@))
            } else {
                Err("類別要是收入或支出："@ + category@)
            },
        },
        (None, Some(counter)) => match open_account_in(accounts, counter@) {
            Err(e) => Err(e),
            Ok(a) => if !query::on_balance_sheet(a.1) {
                Err("對方帳戶要是資產或負債："@ + counter@)
            } else if accounts::within(counter@, m.account@) || accounts::within(
                m.account@,
                counter@,
            ) {
                Err("對方帳戶不可和帳戶相同"@)
            } else {
                Ok((a.0, amount::negated(m.amount@)))
            },
        },
        _ => Err("類別和對方帳戶要選一個，也只能選一個"@),
    }
}

/// The transaction a manual entry books.
pub open spec fn entered(accounts: Seq<AccountRowV>, m: Manual) -> Result<EntryV, Seq<char>> {
    if m.amount@.magnitude == 0 {
        Err("金額不可為 0"@)
    } else {
        match open_account_in(accounts, m.account@) {
            Err(e) => Err(e),
            Ok(from) => if !query::on_balance_sheet(from.1) {
                Err("帳戶要是資產或負債："@ + m.account@)
            } else {
                match far_side(accounts, m) {
                    Err(e) => Err(e),
                    Ok((other, flow)) => Ok(
                        EntryV {
                            date: m.date@,
                            narration: tidied(text::opt(m.note)),
                            currency: m.currency,
                            near: (from.0, flow),
                            far: (other, amount::negated(flow)),
                        },
                    ),
                }
            },
        }
    }
}

fn far_side_of(accounts: &Vec<AccountRow>, m: &Manual) -> (r: Result<(i64, Amount), Refusal>)
    ensures
        match r {
            Ok((id, flow)) => far_side(account_views(accounts@), *m) == Ok::<
                (int, Dec),
                Seq<char>,
            >((id as int, flow@)),
            Err(e) => far_side(account_views(accounts@), *m) == Err::<(int, Dec), Seq<char>>(e@),
        },
{
    match (&m.category, &m.counter) {
        (Some(category), None) => {
            let a = open_account(accounts, category.as_str())?;
            match a.account_type {
                AccountType::Expense => Ok((a.id, m.amount.negated())),
                AccountType::Income => Ok((a.id, m.amount)),
                _ => Err(says("類別要是收入或支出：", category.as_str())),
            }
        },
        (None, Some(counter)) => {
            let a = open_account(accounts, counter.as_str())?;
            if !a.account_type.is_on_balance_sheet() {
                return Err(says("對方帳戶要是資產或負債：", counter.as_str()));
            }
            if accounts::in_subtree(counter.as_str(), m.account.as_str()) || accounts::in_subtree(
                m.account.as_str(),
                counter.as_str(),
            ) {
                return Err(Refusal::new("對方帳戶不可和帳戶相同"));
            }
            Ok((a.id, m.amount.negated()))
        },
        _ => Err(Refusal::new("類別和對方帳戶要選一個，也只能選一個")),
    }
}

/// The transaction a manual entry books, reviewed.
pub fn enter(accounts: &Vec<AccountRow>, m: &Manual) -> (r: Result<Entry, Refusal>)
    ensures
        match r {
            Ok(e) => entered(account_views(accounts@), *m) == Ok::<EntryV, Seq<char>>(e@),
            Err(e) => entered(account_views(accounts@), *m) == Err::<EntryV, Seq<char>>(e@),
        },
{
    if m.amount.is_zero() {
        return Err(Refusal::new("金額不可為 0"));
    }
    let from = open_account(accounts, m.account.as_str())?;
    if !from.account_type.is_on_balance_sheet() {
        return Err(says("帳戶要是資產或負債：", m.account.as_str()));
    }
    let (other, flow) = far_side_of(accounts, m)?;
    Ok(
        Entry {
            date: m.date,
            narration: tidy(&m.note),
            currency: m.currency,
            legs: [(from.id, flow), (other, flow.negated())],
        },
    )
}

/// What an entry posts to one account it posts the negation of to the other,
/// so it cannot be out of balance.
pub proof fn an_entry_balances(accounts: Seq<AccountRowV>, m: Manual)
    requires
        entered(accounts, m) is Ok,
    ensures
        amount::worth(entered(accounts, m)->Ok_0.near.1) + amount::worth(
            entered(accounts, m)->Ok_0.far.1,
        ) == 0,
{
    amount::negated_worth(entered(accounts, m)->Ok_0.near.1);
}

/// An edit that is accepted leaves the legs summing to 0 in each currency.
pub proof fn an_edit_balances(
    accounts: Seq<AccountRowV>,
    rows: Seq<PostingRowV>,
    legs: Seq<LegEditV>,
    narration: Option<Seq<char>>,
    c: Currency,
)
    requires
        rewrite(accounts, rows, legs, narration) is Ok,
    ensures
        amount::total(sums::amounts_in(amounts_of(legs), c)) matches Some(t) && t.magnitude == 0,
{
    let all = amounts_of(legs);
    assert(all.take(all.len() as int) =~= all);
    assert(sums::tally(all) is Some);
    sums::sums_are_totals(all, c);
}

proof fn dropped_ids(rows: Seq<PostingRowV>, keep: Seq<int>, i: int)
    requires
        0 <= i < rows.len(),
    ensures
        dropped(rows, keep).contains(rows[i].id) <==> !keep.contains(rows[i].id),
    decreases rows.len(),
{
    let rest = dropped(rows.drop_last(), keep);
    let all = dropped(rows, keep);
    let id = rows[i].id;
    if i < rows.len() - 1 {
        dropped_ids(rows.drop_last(), keep, i);
        if rest.contains(id) {
            let k = choose|k: int| 0 <= k < rest.len() && rest[k] == id;
            assert(all[k] == id);
        }
        if all.contains(id) && !rest.contains(id) {
            let k = choose|k: int| 0 <= k < all.len() && all[k] == id;
            if k < rest.len() {
                assert(rest[k] == id);
            }
        }
    } else {
        if !keep.contains(id) {
            assert(all[rest.len() as int] == id);
        } else {
            never_dropped(rows, keep, id);
        }
    }
}

proof fn never_dropped(rows: Seq<PostingRowV>, keep: Seq<int>, id: int)
    requires
        keep.contains(id),
    ensures
        !dropped(rows, keep).contains(id),
    decreases rows.len(),
{
    if rows.len() > 0 {
        never_dropped(rows.drop_last(), keep, id);
        let rest = dropped(rows.drop_last(), keep);
        assert forall|k: int| 0 <= k < dropped(rows, keep).len() implies dropped(rows, keep)[k]
            != id by {
            if k < rest.len() {
                assert(dropped(rows, keep)[k] == rest[k]);
                assert(rest[k] != id);
            }
        }
    }
}

/// An edit removes exactly the postings its legs leave out.
pub proof fn an_edit_removes_what_it_leaves_out(
    accounts: Seq<AccountRowV>,
    rows: Seq<PostingRowV>,
    legs: Seq<LegEditV>,
    narration: Option<Seq<char>>,
    i: int,
)
    requires
        rewrite(accounts, rows, legs, narration) is Ok,
        0 <= i < rows.len(),
    ensures
        rewrite(accounts, rows, legs, narration)->Ok_0.deletes.contains(rows[i].id) <==> !(exists|
            k: int,
        |
            0 <= k < legs.len() && #[trigger] legs[k].posting_id is Some && legs[k].posting_id->0
                == rows[i].id),
{
    let keep = kept(rows, legs, legs.len() as int)->Ok_0;
    dropped_ids(rows, keep, i);
    kept_ids(rows, legs, legs.len() as int, rows[i].id);
}

proof fn kept_ids(rows: Seq<PostingRowV>, legs: Seq<LegEditV>, n: int, id: int)
    requires
        0 <= n <= legs.len(),
        kept(rows, legs, n) is Ok,
    ensures
        kept(rows, legs, n)->Ok_0.contains(id) <==> (exists|k: int|
            0 <= k < n && #[trigger] legs[k].posting_id is Some && legs[k].posting_id->0 == id),
    decreases n,
{
    if n > 0 {
        kept_ids(rows, legs, n - 1, id);
        let rest = kept(rows, legs, n - 1)->Ok_0;
        let all = kept(rows, legs, n)->Ok_0;
        if all.contains(id) {
            let j = choose|j: int| 0 <= j < all.len() && all[j] == id;
            if j < rest.len() {
                assert(rest[j] == id);
            } else {
                assert(legs[n - 1].posting_id is Some && legs[n - 1].posting_id->0 == id);
            }
        }
        if exists|k: int|
            0 <= k < n && #[trigger] legs[k].posting_id is Some && legs[k].posting_id->0 == id {
            let k = choose|k: int|
                0 <= k < n && #[trigger] legs[k].posting_id is Some && legs[k].posting_id->0 == id;
            if k < n - 1 {
                assert(rest.contains(id));
                let j = choose|j: int| 0 <= j < rest.len() && rest[j] == id;
                assert(all[j] == id);
            } else {
                assert(all[rest.len() as int] == id);
            }
        }
    }
}

/// Are the two optional amounts the same, whatever their scales?
pub open spec fn same_amounts(a: Option<Dec>, b: Option<Dec>) -> bool {
    match (a, b) {
        (Some(a), Some(b)) => amount::equal(a, b),
        (None, None) => true,
        _ => false,
    }
}

/// Are the two assertions the same?
pub open spec fn same_assertion(a: AssertionV, b: AssertionV) -> bool {
    a.source == b.source && a.account == b.account && a.currency == b.currency && a.period_start
        == b.period_start && same_amounts(a.opening, b.opening) && a.period_end == b.period_end
        && amount::equal(a.closing, b.closing)
}

/// Are the two holding figures the same?
pub open spec fn same_holding(a: HoldingV, b: HoldingV) -> bool {
    a.source == b.source && a.account == b.account && a.as_of == b.as_of && a.commodity
        == b.commodity && amount::equal(a.quantity, b.quantity)
}

/// Are the two mismatches the same?
pub open spec fn same_mismatch(a: MismatchV, b: MismatchV) -> bool {
    &&& match (a.figure, b.figure) {
        (FigureV::Balance(x), FigureV::Balance(y)) => same_assertion(x, y),
        (FigureV::Holding(x), FigureV::Holding(y)) => same_holding(x, y),
        _ => false,
    }
    &&& a.as_of == b.as_of
    &&& amount::equal(a.expected, b.expected)
    &&& amount::equal(a.computed, b.computed)
}

fn same_opt_amount(a: Option<Amount>, b: Option<Amount>) -> (r: bool)
    ensures
        r == same_amounts(amount::opt(a), amount::opt(b)),
{
    match (a, b) {
        (Some(a), Some(b)) => a.equals(&b),
        (None, None) => true,
        _ => false,
    }
}

fn same_opt_date(a: Option<Date>, b: Option<Date>) -> (r: bool)
    ensures
        r == (date::opt(a) == date::opt(b)),
{
    match (a, b) {
        (Some(a), Some(b)) => a.number() == b.number(),
        (None, None) => true,
        _ => false,
    }
}

/// Are the two assertions the same?
pub(crate) fn is_same_assertion(a: &BalanceAssertion, b: &BalanceAssertion) -> (r: bool)
    ensures
        r == same_assertion(a@, b@),
{
    a.source == b.source && text::same_text(a.account.as_str(), b.account.as_str()) && a.currency
        == b.currency && same_opt_date(a.period_start, b.period_start) && same_opt_amount(
        a.opening,
        b.opening,
    ) && a.period_end.number() == b.period_end.number() && a.closing.equals(&b.closing)
}

fn is_same_holding(a: &HoldingAssertion, b: &HoldingAssertion) -> (r: bool)
    ensures
        r == same_holding(a@, b@),
{
    a.source == b.source && text::same_text(a.account.as_str(), b.account.as_str())
        && a.as_of.number() == b.as_of.number() && a.commodity.same(&b.commodity)
        && a.quantity.equals(&b.quantity)
}

fn is_same_mismatch(a: &Mismatch, b: &Mismatch) -> (r: bool)
    ensures
        r == same_mismatch(a@, b@),
{
    let figure = match (&a.figure, &b.figure) {
        (Figure::Balance(x), Figure::Balance(y)) => is_same_assertion(x, y),
        (Figure::Holding(x), Figure::Holding(y)) => is_same_holding(x, y),
        _ => false,
    };
    figure && a.as_of.number() == b.as_of.number() && a.expected.equals(&b.expected)
        && a.computed.equals(&b.computed)
}

/// Was a mismatch there before?
pub open spec fn among(before: Seq<MismatchV>, m: MismatchV) -> bool {
    exists|i: int| 0 <= i < before.len() && same_mismatch(#[trigger] before[i], m)
}

/// The first mismatch from `from` on that was not there before.
pub open spec fn first_broken(before: Seq<MismatchV>, after: Seq<MismatchV>, from: int) -> Option<
    int,
>
    decreases after.len() - from,
{
    if from < 0 || from >= after.len() {
        None
    } else if among(before, after[from]) {
        first_broken(before, after, from + 1)
    } else {
        Some(from)
    }
}

/// The first figure a write broke: a write is held only to the ones it breaks,
/// not to one already broken elsewhere.
pub fn broken(before: &Vec<Mismatch>, after: &Vec<Mismatch>) -> (r: Option<usize>)
    ensures
        match r {
            Some(i) => i < after@.len() && first_broken(
                check::mismatch_views(before@),
                check::mismatch_views(after@),
                0,
            ) == Some(i as int),
            None => first_broken(
                check::mismatch_views(before@),
                check::mismatch_views(after@),
                0,
            ) is None,
        },
{
    let ghost (b, a) = (check::mismatch_views(before@), check::mismatch_views(after@));
    let mut i: usize = 0;
    while i < after.len()
        invariant
            i <= after@.len(),
            b == check::mismatch_views(before@),
            a == check::mismatch_views(after@),
            first_broken(b, a, 0) == first_broken(b, a, i as int),
        decreases after@.len() - i,
    {
        assert(a[i as int] == after@[i as int]@);
        let mut known = false;
        let mut k: usize = 0;
        while k < before.len() && !known
            invariant
                k <= before@.len(),
                i < after@.len(),
                b == check::mismatch_views(before@),
                a == check::mismatch_views(after@),
                a[i as int] == after@[i as int]@,
                known ==> among(b, a[i as int]),
                !known ==> forall|n: int|
                    0 <= n < k ==> !same_mismatch(#[trigger] b[n], a[i as int]),
            decreases before@.len() - k,
        {
            assert(b[k as int] == before@[k as int]@);
            if is_same_mismatch(&before[k], &after[i]) {
                known = true;
            }
            k = k + 1;
        }
        if !known {
            assert(!among(b, a[i as int]));
            return Some(i);
        }
        i = i + 1;
    }
    None
}

/// Who vouches for a balance, in the reader's words.
pub open spec fn who(s: AssertionSource) -> Seq<char> {
    match s {
        AssertionSource::Statement => "對帳單"@,
        AssertionSource::Tiantian => "天天記帳"@,
        AssertionSource::Counted => "你盤點"@,
    }
}

/// The account of a figure.
pub open spec fn account_of(f: FigureV) -> Seq<char> {
    match f {
        FigureV::Balance(a) => a.account,
        FigureV::Holding(h) => h.account,
    }
}

/// What a write that broke a figure is refused with: which one, and what to
/// do, in the reader's words.
pub open spec fn broken_text(m: MismatchV, label: Option<Seq<char>>) -> Seq<char> {
    let name = match label {
        Some(l) => l,
        None => account_of(m.figure),
    };
    let day = date::printed(m.as_of);
    match m.figure {
        FigureV::Balance(a) => "沒有儲存：這筆會讓「"@ + name + "」"@ + day + " 的餘額變成 "@
            + amount::printed(amount::normal(m.computed)) + " "@ + currency::code(a.currency)
            + "，但"@ + who(a.source) + "記那天是 "@ + amount::printed(amount::normal(m.expected))
            + " "@ + currency::code(a.currency) + "。"@ + day
            + " 以前的帳已經對過了：這筆可能已經記過，或者日期該在 "@ + day + " 之後。"@,
        FigureV::Holding(_) => "沒有儲存：這筆會對不上「"@ + name + "」"@ + day + " 的持股。"@,
    }
}

/// What a write that broke a figure is refused with; `label` is what the
/// account is called, if it is called anything.
pub fn refusal(m: &Mismatch, label: Option<String>) -> (r: String)
    ensures
        r@ == broken_text(m@, text::opt(label)),
{
    let name = match label {
        Some(l) => l,
        None => text::copy(
            match &m.figure {
                Figure::Balance(a) => a.account.as_str(),
                Figure::Holding(h) => h.account.as_str(),
            },
        ),
    };
    let day = m.as_of.text();
    match &m.figure {
        Figure::Balance(a) => {
            let mut out = text::copy("沒有儲存：這筆會讓「");
            out.append(name.as_str());
            out.append("」");
            out.append(day.as_str());
            out.append(" 的餘額變成 ");
            out.append(m.computed.normalized().text().as_str());
            out.append(" ");
            out.append(a.currency.text().as_str());
            out.append("，但");
            out.append(
                match a.source {
                    AssertionSource::Statement => "對帳單",
                    AssertionSource::Tiantian => "天天記帳",
                    AssertionSource::Counted => "你盤點",
                },
            );
            out.append("記那天是 ");
            out.append(m.expected.normalized().text().as_str());
            out.append(" ");
            out.append(a.currency.text().as_str());
            out.append("。");
            out.append(day.as_str());
            out.append(" 以前的帳已經對過了：這筆可能已經記過，或者日期該在 ");
            out.append(day.as_str());
            out.append(" 之後。");
            assert(out@ =~= broken_text(m@, text::opt(label)));
            out
        },
        Figure::Holding(_) => {
            let mut out = text::copy("沒有儲存：這筆會對不上「");
            out.append(name.as_str());
            out.append("」");
            out.append(day.as_str());
            out.append(" 的持股。");
            assert(out@ =~= broken_text(m@, text::opt(label)));
            out
        },
    }
}

/// A transaction marked reviewed as it stands; nothing for one that is.
pub open spec fn confirmed(before: SnapshotV) -> Option<SnapshotV> {
    if before.reviewed {
        None
    } else {
        Some(SnapshotV { reviewed: true, ..before })
    }
}

/// What confirming a transaction changes. Confirming a reviewed one changes
/// nothing and records nothing.
pub fn confirm(before: Snapshot) -> (r: Option<Change>)
    ensures
        match r {
            Some(change) => (change.before matches Some(b) && b@ == before@) && confirmed(before@)
                == Some(change.after@),
            None => confirmed(before@) is None,
        },
{
    if before.reviewed {
        return None;
    }
    let mut after = before.copy();
    after.reviewed = true;
    Some(Change { before: Some(before), after })
}

/// A transaction is confirmed once.
pub proof fn confirming_again_changes_nothing(before: SnapshotV)
    ensures
        confirmed(before) matches Some(after) ==> confirmed(after) is None && after.legs
            == before.legs && after.date == before.date,
{
}

pub(crate) proof fn row_is_the_first(rows: Seq<AccountRowV>, path: Seq<char>, from: int)
    requires
        0 <= from,
    ensures
        match row_at(rows, path, from) {
            Some(i) => from <= i < rows.len() && rows[i].path == path,
            None => forall|i: int| from <= i < rows.len() ==> (#[trigger] rows[i]).path != path,
        },
    decreases rows.len() - from,
{
    if from < rows.len() && rows[from].path != path {
        row_is_the_first(rows, path, from + 1);
    }
}

/// Is there an open account at `path` with this id and type?
pub open spec fn is_open_at(
    rows: Seq<AccountRowV>,
    path: Seq<char>,
    id: int,
    kind: AccountType,
) -> bool {
    exists|i: int|
        0 <= i < rows.len() && (#[trigger] rows[i]).path == path && rows[i].id == id
            && !rows[i].closed && query::type_of(rows[i].acct_type) == Some(kind)
}

/// Is there an open account at `path` with this id that is an asset or a
/// liability?
pub open spec fn is_open_worth(rows: Seq<AccountRowV>, path: Seq<char>, id: int) -> bool {
    is_open_at(rows, path, id, AccountType::Asset) || is_open_at(
        rows,
        path,
        id,
        AccountType::Liability,
    )
}

proof fn open_accounts_are_there(rows: Seq<AccountRowV>, path: Seq<char>)
    ensures
        open_account_in(rows, path) matches Ok(a) ==> is_open_at(rows, path, a.0, a.1),
{
    row_is_the_first(rows, path, 0);
    if let Some(i) = row_at(rows, path, 0) {
        assert(rows[i].path == path);
    }
}

/// An accepted entry that names a counter account takes its amount out of its
/// account and puts it on the counter account: both open, both assets or
/// liabilities, and neither under the other.
pub proof fn an_entry_moves_to_its_counter(accounts: Seq<AccountRowV>, m: Manual)
    requires
        entered(accounts, m) is Ok,
        m.counter is Some,
    ensures
        ({
            let e = entered(accounts, m)->Ok_0;
            let counter = m.counter->0@;
            &&& m.category is None
            &&& is_open_worth(accounts, m.account@, e.near.0)
            &&& is_open_worth(accounts, counter, e.far.0)
            &&& amount::worth(e.near.1) == -amount::worth(m.amount@)
            &&& amount::worth(e.far.1) == amount::worth(m.amount@)
            &&& e.near.1 == amount::negated(m.amount@)
            &&& e.far.1 == m.amount@
            &&& !accounts::within(counter, m.account@)
            &&& !accounts::within(m.account@, counter)
        }),
{
    open_accounts_are_there(accounts, m.account@);
    open_accounts_are_there(accounts, m.counter->0@);
    amount::negated_worth(m.amount@);
    amount::negated_twice(m.amount@);
}

/// An accepted entry that names a category spends its amount on it where it is
/// an expense, and earns its amount from it where it is an income. It is one of
/// the two.
pub proof fn an_entry_spends_or_earns(accounts: Seq<AccountRowV>, m: Manual)
    requires
        entered(accounts, m) is Ok,
        m.category is Some,
    ensures
        ({
            let e = entered(accounts, m)->Ok_0;
            let category = m.category->0@;
            let w = amount::worth(m.amount@);
            let spent = is_open_at(accounts, category, e.far.0, AccountType::Expense)
                && amount::worth(e.near.1) == -w && amount::worth(e.far.1) == w;
            let earned = is_open_at(accounts, category, e.far.0, AccountType::Income)
                && amount::worth(e.near.1) == w && amount::worth(e.far.1) == -w;
            &&& m.counter is None
            &&& is_open_worth(accounts, m.account@, e.near.0)
            &&& spent || earned
        }),
{
    open_accounts_are_there(accounts, m.account@);
    open_accounts_are_there(accounts, m.category->0@);
    amount::negated_worth(m.amount@);
    amount::negated_twice(m.amount@);
}

/// Is `n` what is left of a note without white space at its ends?
pub open spec fn is_tidied(n: Option<Seq<char>>, note: Option<Seq<char>>) -> bool {
    match n {
        None => note matches Some(s) ==> forall|i: int|
            0 <= i < s.len() ==> text::of_class(Class::White, #[trigger] s[i]),
        Some(n) => {
            &&& n.len() > 0
            &&& !text::of_class(Class::White, n[0])
            &&& !text::of_class(Class::White, n.last())
            &&& note is Some
            &&& exists|a: int, b: int|
                #![trigger note->0.subrange(a, b)]
                0 <= a <= b <= note->0.len() && n == note->0.subrange(a, b) && (forall|i: int|
                    0 <= i < a ==> text::of_class(Class::White, #[trigger] note->0[i])) && (forall|
                    i: int,
                |
                    b <= i < note->0.len() ==> text::of_class(Class::White, #[trigger] note->0[i]))
        },
    }
}

proof fn trimmed_at_start(s: Seq<char>, k: Class) -> (a: int)
    ensures
        0 <= a <= s.len(),
        text::trimmed_start(s, k) == s.skip(a),
        forall|i: int| 0 <= i < a ==> text::of_class(k, #[trigger] s[i]),
        a < s.len() ==> !text::of_class(k, s[a]),
    decreases s.len(),
{
    if s.len() > 0 && text::of_class(k, s[0]) {
        let a = trimmed_at_start(s.skip(1), k);
        assert(s.skip(1).skip(a) =~= s.skip(a + 1));
        assert forall|i: int| 0 <= i < a + 1 implies text::of_class(k, #[trigger] s[i]) by {
            if i > 0 {
                assert(s.skip(1)[i - 1] == s[i]);
            }
        }
        if a + 1 < s.len() {
            assert(s.skip(1)[a] == s[a + 1]);
        }
        a + 1
    } else {
        assert(s.skip(0) =~= s);
        0
    }
}

proof fn trimmed_at_end(s: Seq<char>, k: Class) -> (b: int)
    ensures
        0 <= b <= s.len(),
        text::trimmed_end(s, k) == s.take(b),
        forall|i: int| b <= i < s.len() ==> text::of_class(k, #[trigger] s[i]),
        b > 0 ==> !text::of_class(k, s[b - 1]),
    decreases s.len(),
{
    if s.len() > 0 && text::of_class(k, s.last()) {
        let b = trimmed_at_end(s.drop_last(), k);
        assert(s.drop_last().take(b) =~= s.take(b));
        assert forall|i: int| b <= i < s.len() implies text::of_class(k, #[trigger] s[i]) by {
            if i < s.len() - 1 {
                assert(s.drop_last()[i] == s[i]);
            }
        }
        b
    } else {
        assert(s.take(s.len() as int) =~= s);
        s.len() as int
    }
}

proof fn a_note_is_tidied(note: Option<Seq<char>>)
    ensures
        is_tidied(tidied(note), note),
{
    if let Some(s) = note {
        let a = trimmed_at_start(s, Class::White);
        let rest = s.skip(a);
        let b = trimmed_at_end(rest, Class::White);
        let n = text::trimmed(s, Class::White);
        assert(n == rest.take(b));
        assert(rest.take(b) =~= s.subrange(a, a + b));
        assert forall|i: int| a + b <= i < s.len() implies text::of_class(
            Class::White,
            #[trigger] s[i],
        ) by {
            assert(rest[i - a] == s[i]);
        }
        if b > 0 {
            assert(n[0] == s[a]);
            assert(n.last() == rest[b - 1]);
        }
    }
}

/// An entry is booked on its own day, in its own currency, with its note
/// without white space at its ends; a blank note is none.
pub proof fn an_entry_keeps_what_it_says(accounts: Seq<AccountRowV>, m: Manual)
    requires
        entered(accounts, m) is Ok,
    ensures
        ({
            let e = entered(accounts, m)->Ok_0;
            &&& e.date == m.date@
            &&& e.currency == m.currency
            &&& m.amount@.magnitude != 0
            &&& is_tidied(e.narration, text::opt(m.note))
        }),
{
    a_note_is_tidied(text::opt(m.note));
}

/// An edit notes what it says, without white space at its ends; a blank note
/// is none.
pub proof fn an_edit_keeps_its_note(
    accounts: Seq<AccountRowV>,
    rows: Seq<PostingRowV>,
    legs: Seq<LegEditV>,
    narration: Option<Seq<char>>,
)
    requires
        rewrite(accounts, rows, legs, narration) is Ok,
    ensures
        is_tidied(rewrite(accounts, rows, legs, narration)->Ok_0.narration, narration),
{
    a_note_is_tidied(narration);
}

proof fn only_row(rows: Seq<AccountRowV>, path: Seq<char>, i: int)
    requires
        0 <= i < rows.len(),
        rows[i].path == path,
        forall|k: int, n: int|
            0 <= k < n < rows.len() ==> (#[trigger] rows[k]).path != (#[trigger] rows[n]).path,
    ensures
        row_at(rows, path, 0) == Some(i),
{
    row_is_the_first(rows, path, 0);
    let k = row_at(rows, path, 0)->0;
    if k < i {
        assert(rows[k].path != rows[i].path);
    } else if i < k {
        assert(rows[i].path != rows[k].path);
    }
}

/// An entry of an amount that is not 0 is accepted where its account is an open
/// asset or liability, and so is its counter account, apart from it, or its
/// category is an open income or expense. No path is that of two accounts.
pub proof fn a_sound_entry_is_accepted(accounts: Seq<AccountRowV>, m: Manual, i: int, j: int)
    requires
        forall|k: int, n: int|
            0 <= k < n < accounts.len() ==> (#[trigger] accounts[k]).path != (
            #[trigger] accounts[n]).path,
        m.amount@.magnitude != 0,
        0 <= i < accounts.len(),
        accounts[i].path == m.account@,
        !accounts[i].closed,
        query::type_of(accounts[i].acct_type) == Some(AccountType::Asset) || query::type_of(
            accounts[i].acct_type,
        ) == Some(AccountType::Liability),
        0 <= j < accounts.len(),
        !accounts[j].closed,
        match (m.category, m.counter) {
            (Some(category), None) => accounts[j].path == category@ && (query::type_of(
                accounts[j].acct_type,
            ) == Some(AccountType::Income) || query::type_of(accounts[j].acct_type) == Some(
                AccountType::Expense,
            )),
            (None, Some(counter)) => accounts[j].path == counter@ && (query::type_of(
                accounts[j].acct_type,
            ) == Some(AccountType::Asset) || query::type_of(accounts[j].acct_type) == Some(
                AccountType::Liability,
            )) && !accounts::within(counter@, m.account@) && !accounts::within(
                m.account@,
                counter@,
            ),
            _ => false,
        },
    ensures
        entered(accounts, m) matches Ok(e) && e.near.0 == accounts[i].id && e.far.0
            == accounts[j].id,
{
    only_row(accounts, m.account@, i);
    only_row(accounts, accounts[j].path, j);
}

proof fn posting_is_there(rows: Seq<PostingRowV>, id: int, from: int)
    requires
        0 <= from,
    ensures
        posting_at(rows, id, from) matches Some(i) ==> from <= i < rows.len() && rows[i].id == id,
    decreases rows.len() - from,
{
    if from < rows.len() && rows[from].id != id {
        posting_is_there(rows, id, from + 1);
    }
}

/// Does a leg say what a row of its posting already holds?
pub open spec fn stands_already(rows: Seq<PostingRowV>, l: LegEditV) -> bool {
    l.posting_id matches Some(pid) && exists|i: int|
        0 <= i < rows.len() && (#[trigger] rows[i]).id == pid && rows[i].path == l.account
            && rows[i].currency == currency::code(l.currency) && (amount::spelled(
            rows[i].amount,
        ) matches Some(a) && amount::worth(a) == amount::worth(l.amount))
}

/// Is there an account at `path` with this id?
pub open spec fn is_at(rows: Seq<AccountRowV>, path: Seq<char>, id: int) -> bool {
    exists|i: int| 0 <= i < rows.len() && (#[trigger] rows[i]).path == path && rows[i].id == id
}

/// Does a write put a leg where it says?
pub open spec fn puts(accounts: Seq<AccountRowV>, w: WriteV, l: LegEditV) -> bool {
    &&& w.posting_id == l.posting_id
    &&& w.amount == l.amount
    &&& w.currency == l.currency
    &&& is_at(accounts, l.account, w.account_id)
}

proof fn accounts_are_there(rows: Seq<AccountRowV>, path: Seq<char>)
    ensures
        account_in(rows, path) matches Ok(a) ==> is_at(rows, path, a.0),
{
    row_is_the_first(rows, path, 0);
    if let Some(i) = row_at(rows, path, 0) {
        assert(rows[i].path == path);
    }
}

proof fn each_leg_is_written(
    accounts: Seq<AccountRowV>,
    rows: Seq<PostingRowV>,
    legs: Seq<LegEditV>,
    n: int,
    k: int,
) -> (i: int)
    requires
        0 <= k < n <= legs.len(),
        writes(accounts, rows, legs, n) is Ok,
    ensures
        stands_already(rows, legs[k]) || (0 <= i < (writes(accounts, rows, legs, n)->Ok_0).len()
            && puts(accounts, (writes(accounts, rows, legs, n)->Ok_0)[i], legs[k])),
    decreases n,
{
    if k < n - 1 {
        each_leg_is_written(accounts, rows, legs, n - 1, k)
    } else {
        let l = legs[k];
        if unchanged(rows, l) {
            posting_is_there(rows, l.posting_id->0 as int, 0);
            assert(rewritten(rows, l) is Some);
            let r = posting_at(rows, l.posting_id->0 as int, 0)->0;
            assert(rows[r].id == l.posting_id->0);
            0
        } else {
            accounts_are_there(accounts, l.account);
            (writes(accounts, rows, legs, n)->Ok_0).len() - 1
        }
    }
}

/// Every leg of an accepted edit stands already as it says, or is written: over
/// its posting or as a new one, on its account, with its amount and currency.
pub proof fn an_edit_writes_every_leg(
    accounts: Seq<AccountRowV>,
    rows: Seq<PostingRowV>,
    legs: Seq<LegEditV>,
    narration: Option<Seq<char>>,
    k: int,
) -> (i: int)
    requires
        rewrite(accounts, rows, legs, narration) is Ok,
        0 <= k < legs.len(),
    ensures
        ({
            let w = rewrite(accounts, rows, legs, narration)->Ok_0.writes;
            stands_already(rows, legs[k]) || (0 <= i < w.len() && puts(accounts, w[i], legs[k]))
        }),
{
    each_leg_is_written(accounts, rows, legs, legs.len() as int, k)
}

proof fn each_write_is_a_leg(
    accounts: Seq<AccountRowV>,
    rows: Seq<PostingRowV>,
    legs: Seq<LegEditV>,
    n: int,
    i: int,
) -> (k: int)
    requires
        0 <= n <= legs.len(),
        writes(accounts, rows, legs, n) is Ok,
        0 <= i < (writes(accounts, rows, legs, n)->Ok_0).len(),
    ensures
        0 <= k < n,
        puts(accounts, (writes(accounts, rows, legs, n)->Ok_0)[i], legs[k]),
        !unchanged(rows, legs[k]),
    decreases n,
{
    accounts_are_there(accounts, legs[n - 1].account);
    if unchanged(rows, legs[n - 1]) || i < (writes(accounts, rows, legs, n)->Ok_0).len() - 1 {
        each_write_is_a_leg(accounts, rows, legs, n - 1, i)
    } else {
        n - 1
    }
}

/// An edit writes nothing but its legs.
pub proof fn an_edit_writes_only_its_legs(
    accounts: Seq<AccountRowV>,
    rows: Seq<PostingRowV>,
    legs: Seq<LegEditV>,
    narration: Option<Seq<char>>,
    i: int,
) -> (k: int)
    requires
        rewrite(accounts, rows, legs, narration) is Ok,
        0 <= i < (rewrite(accounts, rows, legs, narration)->Ok_0).writes.len(),
    ensures
        0 <= k < legs.len(),
        puts(accounts, (rewrite(accounts, rows, legs, narration)->Ok_0).writes[i], legs[k]),
{
    each_write_is_a_leg(accounts, rows, legs, legs.len() as int, i)
}

/// A write is refused exactly where a figure disagrees that did not disagree
/// before, in the same way.
pub proof fn a_write_is_held_to_what_it_breaks(before: Seq<MismatchV>, after: Seq<MismatchV>)
    ensures
        match first_broken(before, after, 0) {
            None => forall|i: int|
                0 <= i < after.len() ==> exists|k: int|
                    0 <= k < before.len() && same_mismatch(
                        #[trigger] before[k],
                        #[trigger] after[i],
                    ),
            Some(i) => 0 <= i < after.len() && forall|k: int|
                0 <= k < before.len() ==> !same_mismatch(#[trigger] before[k], after[i]),
        },
{
    broken_from(before, after, 0);
    if first_broken(before, after, 0) is None {
        assert forall|i: int| 0 <= i < after.len() implies exists|k: int|
            0 <= k < before.len() && same_mismatch(#[trigger] before[k], #[trigger] after[i]) by {
            assert(among(before, after[i]));
        }
    }
}

proof fn broken_from(before: Seq<MismatchV>, after: Seq<MismatchV>, from: int)
    requires
        0 <= from,
    ensures
        match first_broken(before, after, from) {
            None => forall|i: int| from <= i < after.len() ==> among(before, #[trigger] after[i]),
            Some(i) => from <= i < after.len() && !among(before, after[i]),
        },
    decreases after.len() - from,
{
    if from < after.len() && among(before, after[from]) {
        broken_from(before, after, from + 1);
    }
}

/// A write that breaks a balance is refused with what the balance would be and
/// what it was vouched to be, on its day.
pub proof fn a_refusal_reads_what_would_be(m: MismatchV, label: Option<Seq<char>>)
    requires
        m.figure is Balance,
    ensures
        ({
            let a = m.figure->Balance_0;
            let text = broken_text(m, label);
            let code = currency::code(a.currency);
            &&& hledger::has_within(
                text,
                " 的餘額變成 "@ + amount::printed(amount::normal(m.computed)) + " "@ + code,
            )
            &&& hledger::has_within(
                text,
                "記那天是 "@ + amount::printed(amount::normal(m.expected)) + " "@ + code,
            )
            &&& amount::valid(m.computed) ==> amount::worth(amount::normal(m.computed))
                == amount::worth(m.computed)
            &&& amount::valid(m.expected) ==> amount::worth(amount::normal(m.expected))
                == amount::worth(m.expected)
        }),
{
    let a = m.figure->Balance_0;
    let code = currency::code(a.currency);
    let name = match label {
        Some(l) => l,
        None => account_of(m.figure),
    };
    let day = date::printed(m.as_of);
    let (would, was) = (
        amount::printed(amount::normal(m.computed)),
        amount::printed(amount::normal(m.expected)),
    );
    let head = "沒有儲存：這筆會讓「"@ + name + "」"@ + day;
    let changed = head + " 的餘額變成 "@ + would + " "@ + code;
    let middle = changed + "，但"@ + who(a.source);
    let stated = middle + "記那天是 "@ + was + " "@ + code;
    let (p, q) = (" 的餘額變成 "@ + would + " "@ + code, "記那天是 "@ + was + " "@ + code);
    hledger::four_stand(head, " 的餘額變成 "@, would, " "@, code);
    hledger::four_stand(middle, "記那天是 "@, was, " "@, code);
    hledger::stands_before(changed, "，但"@, p);
    hledger::stands_before(changed + "，但"@, who(a.source), p);
    hledger::stands_before(middle, "記那天是 "@, p);
    hledger::stands_before(middle + "記那天是 "@, was, p);
    hledger::stands_before(middle + "記那天是 "@ + was, " "@, p);
    hledger::stands_before(middle + "記那天是 "@ + was + " "@, code, p);
    refusal_ends(stated, day, p);
    refusal_ends(stated, day, q);
    if amount::valid(m.computed) {
        amount::normal_worth(m.computed);
    }
    if amount::valid(m.expected) {
        amount::normal_worth(m.expected);
    }
}

proof fn refusal_ends(s: Seq<char>, day: Seq<char>, part: Seq<char>)
    requires
        hledger::has_within(s, part),
    ensures
        hledger::has_within(
            s + "。"@ + day + " 以前的帳已經對過了：這筆可能已經記過，或者日期該在 "@ + day
                + " 之後。"@,
            part,
        ),
{
    let a = s + "。"@;
    let b = a + day;
    let c = b + " 以前的帳已經對過了：這筆可能已經記過，或者日期該在 "@;
    let d = c + day;
    hledger::stands_before(s, "。"@, part);
    hledger::stands_before(a, day, part);
    hledger::stands_before(
        b,
        " 以前的帳已經對過了：這筆可能已經記過，或者日期該在 "@,
        part,
    );
    hledger::stands_before(c, day, part);
    hledger::stands_before(d, " 之後。"@, part);
}

} // verus!
