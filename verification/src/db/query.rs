//! The reporting engine: pure, read-only queries over a snapshot of the ledger.
//!
//! Everything here returns typed structs, never formatted strings, so the same
//! numbers can feed a UI, a command line, or a test's assertions. Reading and
//! arithmetic are kept apart: [`LedgerData::load_from`] takes the whole ledger's
//! rows once, and the report methods on it are pure functions of that snapshot
//! plus an injected table of rates.
//!
//! Sign convention follows Beancount: assets and expenses are debit-positive,
//! liabilities, equity and income credit-negative. A balance is therefore the
//! plain signed sum of its postings; net worth is `assets + liabilities`
//! (liabilities already carry their own negative sign), and equity — including
//! the cross-currency `Equity:Conversions` plug — is deliberately excluded. So
//! are holdings carried at cost ([`AtCost`]); [`in_net_worth`] is the one rule.

use vstd::prelude::*;

use crate::accounts;
use crate::amount;
use crate::amount::{Amount, Dec};
use crate::currency;
use crate::currency::Currency;
use crate::date;
use crate::date::Date;
use crate::keyed;
use crate::refusal;
use crate::refusal::Refusal;
use crate::sort;
use crate::sort::{Key, KeyV};
use crate::text;
use crate::valuation::AtCost;

use super::periods;
use super::periods::Grain;
use super::rates;
use super::rates::{PriceTable, SeriesV};

verus! {

/// One of the five account roots, carrying the sign convention a report needs.
/// The text form is the schema's `accounts.type` vocabulary.
#[derive(Clone, Copy, PartialEq, Eq, Structural, Debug)]
pub enum AccountType {
    Asset,
    Liability,
    Equity,
    Income,
    Expense,
}

/// How a type is written.
pub open spec fn type_text(t: AccountType) -> Seq<char> {
    match t {
        AccountType::Asset => "asset"@,
        AccountType::Liability => "liability"@,
        AccountType::Equity => "equity"@,
        AccountType::Income => "income"@,
        AccountType::Expense => "expense"@,
    }
}

/// The type a text names.
pub open spec fn type_of(s: Seq<char>) -> Option<AccountType> {
    if s == "asset"@ {
        Some(AccountType::Asset)
    } else if s == "liability"@ {
        Some(AccountType::Liability)
    } else if s == "equity"@ {
        Some(AccountType::Equity)
    } else if s == "income"@ {
        Some(AccountType::Income)
    } else if s == "expense"@ {
        Some(AccountType::Expense)
    } else {
        None
    }
}

/// Does the type count in net worth?
pub open spec fn on_balance_sheet(t: AccountType) -> bool {
    t == AccountType::Asset || t == AccountType::Liability
}

impl AccountType {
    pub fn text(&self) -> (r: String)
        ensures
            r@ == type_text(*self),
    {
        text::copy(
            match self {
                AccountType::Asset => "asset",
                AccountType::Liability => "liability",
                AccountType::Equity => "equity",
                AccountType::Income => "income",
                AccountType::Expense => "expense",
            },
        )
    }

    /// The type a text names.
    pub fn parse(s: &str) -> (r: Option<AccountType>)
        ensures
            r == type_of(s@),
    {
        if text::same_text(s, "asset") {
            Some(AccountType::Asset)
        } else if text::same_text(s, "liability") {
            Some(AccountType::Liability)
        } else if text::same_text(s, "equity") {
            Some(AccountType::Equity)
        } else if text::same_text(s, "income") {
            Some(AccountType::Income)
        } else if text::same_text(s, "expense") {
            Some(AccountType::Expense)
        } else {
            None
        }
    }

    /// Does the type count in net worth?
    pub fn is_on_balance_sheet(&self) -> (r: bool)
        ensures
            r == on_balance_sheet(*self),
    {
        matches!(self, AccountType::Asset | AccountType::Liability)
    }
}

/// A type's text is read back as the type.
pub proof fn type_reads_back(t: AccountType)
    ensures
        type_of(type_text(t)) == Some(t),
{
    reveal_strlit("asset");
    reveal_strlit("liability");
    reveal_strlit("equity");
    reveal_strlit("income");
    reveal_strlit("expense");
    assert("asset"@[0] == 'a' && "liability"@[0] == 'l' && "equity"@[1] == 'q' && "income"@[0]
        == 'i' && "expense"@[1] == 'x');
}

/// What a text column that cannot be read is refused with.
pub open spec fn invalid(name: Seq<char>, s: Seq<char>) -> Seq<char> {
    name + " "@ + text::debug_text(s) + " is invalid"@
}

/// What a text column that cannot be read is refused with: the field is named,
/// so a bad value fails loudly.
pub(crate) fn field(name: &str, s: &str) -> (r: Refusal)
    ensures
        r@ == invalid(name@, s@),
{
    let mut out = text::copy(name);
    out.append(" ");
    out.append(text::quoted(s).as_str());
    out.append(" is invalid");
    assert(out@ =~= invalid(name@, s@));
    Refusal { message: out }
}

/// A row of `accounts`, as the database holds it.
pub struct AccountRow {
    pub id: i64,
    pub path: String,
    pub label: String,
    pub acct_type: String,
    pub closed: i64,
}

/// A posting and the date of its transaction, as the database holds them.
pub struct PostingRow {
    pub account_id: i64,
    pub date: String,
    pub currency: String,
    pub amount: String,
}

pub struct AccountRowV {
    pub id: int,
    pub path: Seq<char>,
    pub label: Seq<char>,
    pub acct_type: Seq<char>,
    pub closed: int,
}

pub struct PostingRowV {
    pub account_id: int,
    pub date: Seq<char>,
    pub currency: Seq<char>,
    pub amount: Seq<char>,
}

impl View for AccountRow {
    type V = AccountRowV;

    open spec fn view(&self) -> AccountRowV {
        AccountRowV {
            id: self.id as int,
            path: self.path@,
            label: self.label@,
            acct_type: self.acct_type@,
            closed: self.closed as int,
        }
    }
}

impl View for PostingRow {
    type V = PostingRowV;

    open spec fn view(&self) -> PostingRowV {
        PostingRowV {
            account_id: self.account_id as int,
            date: self.date@,
            currency: self.currency@,
            amount: self.amount@,
        }
    }
}

pub open spec fn account_rows(v: Seq<AccountRow>) -> Seq<AccountRowV> {
    v.map_values(|r: AccountRow| r@)
}

pub open spec fn posting_rows(v: Seq<PostingRow>) -> Seq<PostingRowV> {
    v.map_values(|r: PostingRow| r@)
}

/// The chart-of-accounts metadata every report row is decorated with.
#[derive(Clone, Debug)]
pub struct AccountMeta {
    pub path: String,
    pub label: String,
    pub account_type: AccountType,
    pub closed: bool,
}

pub struct MetaV {
    pub path: Seq<char>,
    pub label: Seq<char>,
    pub account_type: AccountType,
    pub closed: bool,
}

impl View for AccountMeta {
    type V = MetaV;

    open spec fn view(&self) -> MetaV {
        MetaV {
            path: self.path@,
            label: self.label@,
            account_type: self.account_type,
            closed: self.closed,
        }
    }
}

/// One posting leg, with its transaction's date.
#[derive(Clone, Copy, Debug)]
pub struct PostingEntry {
    pub account_id: i64,
    pub date: Date,
    pub currency: Currency,
    pub amount: Amount,
}

pub struct EntryV {
    pub account_id: int,
    pub date: int,
    pub currency: Currency,
    pub amount: Dec,
}

impl View for PostingEntry {
    type V = EntryV;

    open spec fn view(&self) -> EntryV {
        EntryV {
            account_id: self.account_id as int,
            date: self.date@,
            currency: self.currency,
            amount: self.amount@,
        }
    }
}

pub open spec fn entries(v: Seq<PostingEntry>) -> Seq<EntryV> {
    v.map_values(|p: PostingEntry| p@)
}

/// The whole ledger, read once and reported over many times in memory.
pub struct DataV {
    /// By id.
    pub accounts: Seq<(KeyV, MetaV)>,
    pub postings: Seq<EntryV>,
}

/// The key of an id.
pub open spec fn id_key(id: int) -> KeyV {
    KeyV { text: Seq::empty(), numbers: (id, 0, 0, 0) }
}

pub(crate) fn key_of_id(id: i64) -> (r: Key)
    ensures
        r@ == id_key(id as int),
{
    let none = String::new();
    assert(none@ =~= Seq::empty());
    Key { text: none, numbers: (id, 0, 0, 0) }
}

/// What the account of a posting is.
pub open spec fn meta(d: DataV, id: int) -> MetaV {
    keyed::get(d.accounts, id_key(id))->0
}

/// The account a row holds.
pub open spec fn meta_of(r: AccountRowV) -> Result<MetaV, Seq<char>> {
    match type_of(r.acct_type) {
        Some(t) => Ok(
            MetaV { path: r.path, label: r.label, account_type: t, closed: r.closed != 0 },
        ),
        None => Err(invalid("account type"@, r.acct_type)),
    }
}

/// The posting a row holds.
pub open spec fn entry_of(r: PostingRowV) -> Result<EntryV, Seq<char>> {
    match date::read(r.date) {
        None => Err(invalid("date"@, r.date)),
        Some(day) => match currency::of_code(r.currency) {
            None => Err(invalid("currency"@, r.currency)),
            Some(c) => match amount::spelled(r.amount) {
                None => Err(invalid("amount"@, r.amount)),
                Some(a) => Ok(
                    EntryV { account_id: r.account_id, date: day, currency: c, amount: a },
                ),
            },
        },
    }
}

/// The accounts the rows hold, by id; of two rows with one id the later.
pub open spec fn accounts_in(rows: Seq<AccountRowV>) -> Result<Seq<(KeyV, MetaV)>, Seq<char>>
    decreases rows.len(),
{
    if rows.len() == 0 {
        Ok(Seq::empty())
    } else {
        match accounts_in(rows.drop_last()) {
            Err(e) => Err(e),
            Ok(m) => match meta_of(rows.last()) {
                Err(e) => Err(e),
                Ok(a) => Ok(keyed::put(m, id_key(rows.last().id), a)),
            },
        }
    }
}

/// The postings the rows hold.
pub open spec fn postings_in(rows: Seq<PostingRowV>) -> Result<Seq<EntryV>, Seq<char>>
    decreases rows.len(),
{
    if rows.len() == 0 {
        Ok(Seq::empty())
    } else {
        match postings_in(rows.drop_last()) {
            Err(e) => Err(e),
            Ok(m) => match entry_of(rows.last()) {
                Err(e) => Err(e),
                Ok(p) => Ok(m.push(p)),
            },
        }
    }
}

/// The first posting from `from` on whose account is not among `accounts`.
pub open spec fn orphan(accounts: Seq<(KeyV, MetaV)>, postings: Seq<EntryV>, from: int) -> Option<
    int,
>
    decreases postings.len() - from,
{
    if from < 0 || from >= postings.len() {
        None
    } else if keyed::get(accounts, id_key(postings[from].account_id)) is None {
        Some(from)
    } else {
        orphan(accounts, postings, from + 1)
    }
}

/// What a posting whose account does not exist is refused with.
pub open spec fn orphaned(id: int) -> Seq<char> {
    "a posting names account id "@ + text::signed_digits(id) + ", which does not exist"@
}

/// The ledger the rows hold. A posting that names no account would otherwise
/// vanish from the reports silently.
pub open spec fn data_in(accounts: Seq<AccountRowV>, postings: Seq<PostingRowV>) -> Result<
    DataV,
    Seq<char>,
> {
    match accounts_in(accounts) {
        Err(e) => Err(e),
        Ok(a) => match postings_in(postings) {
            Err(e) => Err(e),
            Ok(p) => match orphan(a, p, 0) {
                Some(i) => Err(orphaned(p[i].account_id)),
                None => Ok(DataV { accounts: a, postings: p }),
            },
        },
    }
}

proof fn refused_accounts_stay(rows: Seq<AccountRowV>, n: int)
    requires
        0 <= n <= rows.len(),
        accounts_in(rows.take(n)) is Err,
    ensures
        accounts_in(rows) == accounts_in(rows.take(n)),
    decreases rows.len() - n,
{
    if n < rows.len() {
        assert(rows.take(n + 1).drop_last() =~= rows.take(n));
        refused_accounts_stay(rows, n + 1);
    } else {
        assert(rows.take(n) =~= rows);
    }
}

proof fn refused_postings_stay(rows: Seq<PostingRowV>, n: int)
    requires
        0 <= n <= rows.len(),
        postings_in(rows.take(n)) is Err,
    ensures
        postings_in(rows) == postings_in(rows.take(n)),
    decreases rows.len() - n,
{
    if n < rows.len() {
        assert(rows.take(n + 1).drop_last() =~= rows.take(n));
        refused_postings_stay(rows, n + 1);
    } else {
        assert(rows.take(n) =~= rows);
    }
}

/// The whole ledger, read once and reported over many times in memory. A
/// single-user ledger is small enough that loading it whole beats issuing one
/// query per report date.
#[derive(Debug)]
pub struct LedgerData {
    accounts: Vec<(Key, AccountMeta)>,
    postings: Vec<PostingEntry>,
}

impl View for LedgerData {
    type V = DataV;

    closed spec fn view(&self) -> DataV {
        DataV { accounts: keyed::entries(self.accounts@), postings: entries(self.postings@) }
    }
}

/// Does every posting's account exist?
pub open spec fn whole(d: DataV) -> bool {
    forall|i: int|
        0 <= i < d.postings.len() ==> keyed::get(
            d.accounts,
            id_key((#[trigger] d.postings[i]).account_id),
        ) is Some
}

impl LedgerData {
    #[verifier::type_invariant]
    spec fn accounts_exist(self) -> bool {
        whole(self@)
    }

    /// The ledger of the database's rows; everything downstream is a pure
    /// function of the returned snapshot.
    pub fn load_from(account_rows: Vec<AccountRow>, posting_rows: Vec<PostingRow>) -> (r: Result<
        LedgerData,
        Refusal,
    >)
        ensures
            match r {
                Ok(d) => data_in(self::account_rows(account_rows@), self::posting_rows(posting_rows@))
                    == Ok::<DataV, Seq<char>>(d@),
                Err(e) => data_in(
                    self::account_rows(account_rows@),
                    self::posting_rows(posting_rows@),
                ) == Err::<DataV, Seq<char>>(e@),
            },
    {
        let ghost all = self::account_rows(account_rows@);
        let ghost legs = self::posting_rows(posting_rows@);
        let mut accounts: Vec<(Key, AccountMeta)> = Vec::new();
        let mut i: usize = 0;
        assert(keyed::entries(accounts@) =~= Seq::empty());
        while i < account_rows.len()
            invariant
                i <= account_rows@.len(),
                all == self::account_rows(account_rows@),
                legs == self::posting_rows(posting_rows@),
                accounts_in(all.take(i as int)) == Ok::<Seq<(KeyV, MetaV)>, Seq<char>>(
                    keyed::entries(accounts@),
                ),
            decreases account_rows@.len() - i,
        {
            let r = &account_rows[i];
            assert(all[i as int] == r@);
            assert(all.take(i as int + 1).drop_last() =~= all.take(i as int));
            match AccountType::parse(r.acct_type.as_str()) {
                None => {
                    proof {
                        refused_accounts_stay(all, i as int + 1);
                    }
                    return Err(field("account type", r.acct_type.as_str()));
                },
                Some(account_type) => {
                    let a = AccountMeta {
                        path: text::copy(r.path.as_str()),
                        label: text::copy(r.label.as_str()),
                        account_type,
                        closed: r.closed != 0,
                    };
                    keyed::set(&mut accounts, key_of_id(r.id), a);
                },
            }
            i = i + 1;
        }
        assert(all.take(i as int) =~= all);
        let mut postings: Vec<PostingEntry> = Vec::new();
        let mut j: usize = 0;
        assert(entries(postings@) =~= Seq::empty());
        while j < posting_rows.len()
            invariant
                j <= posting_rows@.len(),
                all == self::account_rows(account_rows@),
                legs == self::posting_rows(posting_rows@),
                accounts_in(all) == Ok::<Seq<(KeyV, MetaV)>, Seq<char>>(keyed::entries(accounts@)),
                postings_in(legs.take(j as int)) == Ok::<Seq<EntryV>, Seq<char>>(
                    entries(postings@),
                ),
            decreases posting_rows@.len() - j,
        {
            let r = &posting_rows[j];
            let ghost before = postings@;
            assert(legs[j as int] == r@);
            assert(legs.take(j as int + 1).drop_last() =~= legs.take(j as int));
            match entry(r) {
                Err(e) => {
                    proof {
                        refused_postings_stay(legs, j as int + 1);
                    }
                    return Err(e);
                },
                Ok(p) => {
                    postings.push(p);
                    assert(entries(postings@) =~= entries(before).push(p@));
                },
            }
            j = j + 1;
        }
        assert(legs.take(j as int) =~= legs);
        let ghost a = keyed::entries(accounts@);
        let ghost p = entries(postings@);
        let mut k: usize = 0;
        while k < postings.len()
            invariant
                k <= postings@.len(),
                a == keyed::entries(accounts@),
                p == entries(postings@),
                all == self::account_rows(account_rows@),
                legs == self::posting_rows(posting_rows@),
                accounts_in(all) == Ok::<Seq<(KeyV, MetaV)>, Seq<char>>(a),
                postings_in(legs) == Ok::<Seq<EntryV>, Seq<char>>(p),
                orphan(a, p, 0) == orphan(a, p, k as int),
                forall|n: int|
                    0 <= n < k ==> keyed::get(a, id_key((#[trigger] p[n]).account_id)) is Some,
            decreases postings@.len() - k,
        {
            assert(p[k as int] == postings@[k as int]@);
            let id = postings[k].account_id;
            if keyed::look(&accounts, &key_of_id(id)).is_none() {
                let mut out = text::copy("a posting names account id ");
                out.append(text::signed_number(id).as_str());
                out.append(", which does not exist");
                assert(out@ =~= orphaned(id as int));
                return Err(Refusal { message: out });
            }
            k = k + 1;
        }
        Ok(LedgerData { accounts, postings })
    }
}

/// The posting a row holds.
fn entry(r: &PostingRow) -> (e: Result<PostingEntry, Refusal>)
    ensures
        match e {
            Ok(p) => entry_of(r@) == Ok::<EntryV, Seq<char>>(p@),
            Err(e) => entry_of(r@) == Err::<EntryV, Seq<char>>(e@),
        },
{
    let date = match Date::from_iso(r.date.as_str()) {
        Some(d) => d,
        None => return Err(field("date", r.date.as_str())),
    };
    let currency = match Currency::parse(r.currency.as_str()) {
        Some(c) => c,
        None => return Err(field("currency", r.currency.as_str())),
    };
    match Amount::parse(r.amount.as_str()) {
        Some(amount) => Ok(PostingEntry { account_id: r.account_id, date, currency, amount }),
        None => Err(field("amount", r.amount.as_str())),
    }
}

/// The balance of a single account in a single currency, as of a date.
///
/// Both `path` (the chart path) and `label` (the display label) are there, so
/// a page has a name to show without a second lookup.
#[derive(Clone, Debug, PartialEq)]
pub struct AccountBalance {
    pub account_id: i64,
    pub path: String,
    pub label: String,
    pub account_type: AccountType,
    pub closed: bool,
    pub currency: Currency,
    pub amount: Amount,
    pub as_of: Date,
}

#[verifier::ext_equal]
pub struct BalanceV {
    pub account_id: int,
    pub path: Seq<char>,
    pub label: Seq<char>,
    pub account_type: AccountType,
    pub closed: bool,
    pub currency: Currency,
    pub amount: Dec,
    pub as_of: int,
}

impl View for AccountBalance {
    type V = BalanceV;

    open spec fn view(&self) -> BalanceV {
        BalanceV {
            account_id: self.account_id as int,
            path: self.path@,
            label: self.label@,
            account_type: self.account_type,
            closed: self.closed,
            currency: self.currency,
            amount: self.amount@,
            as_of: self.as_of@,
        }
    }
}

pub open spec fn balance_views(v: Seq<AccountBalance>) -> Seq<BalanceV> {
    v.map_values(|b: AccountBalance| b@)
}

/// The amounts posted to an account in a currency through `as_of`.
pub open spec fn amounts(postings: Seq<EntryV>, id: int, c: Currency, as_of: int) -> Seq<Dec>
    decreases postings.len(),
{
    if postings.len() == 0 {
        Seq::empty()
    } else {
        let rest = amounts(postings.drop_last(), id, c, as_of);
        let p = postings.last();
        if p.account_id == id && p.currency == c && p.date <= as_of {
            rest.push(p.amount)
        } else {
            rest
        }
    }
}

/// The signed sum of what was posted to an account in a currency through
/// `as_of`.
pub open spec fn balance(d: DataV, id: int, c: Currency, as_of: int) -> Option<Dec> {
    amount::total(amounts(d.postings, id, c, as_of))
}

/// The accounts and currencies something was posted to through `as_of`, each
/// where it was first.
pub open spec fn held(postings: Seq<EntryV>, as_of: int) -> Seq<(int, Currency)>
    decreases postings.len(),
{
    if postings.len() == 0 {
        Seq::empty()
    } else {
        let rest = held(postings.drop_last(), as_of);
        let p = postings.last();
        if p.date <= as_of && !rest.contains((p.account_id, p.currency)) {
            rest.push((p.account_id, p.currency))
        } else {
            rest
        }
    }
}

/// What balances are sorted by: the path, then the currency.
pub open spec fn balance_key(d: DataV, k: (int, Currency)) -> KeyV {
    KeyV { text: meta(d, k.0).path, numbers: (currency::rank(k.1), k.0, 0, 0) }
}

pub open spec fn balance_keys(d: DataV, as_of: int) -> Seq<KeyV> {
    held(d.postings, as_of).map_values(|k: (int, Currency)| balance_key(d, k))
}

/// The balance of one account in one currency.
pub open spec fn balance_of(d: DataV, k: (int, Currency), as_of: int) -> BalanceV {
    let m = meta(d, k.0);
    BalanceV {
        account_id: k.0,
        path: m.path,
        label: m.label,
        account_type: m.account_type,
        closed: m.closed,
        currency: k.1,
        amount: balance(d, k.0, k.1, as_of)->0,
        as_of,
    }
}

/// Are the balances within what a decimal can be?
pub open spec fn fits(d: DataV, as_of: int) -> bool {
    let all = held(d.postings, as_of);
    forall|i: int|
        0 <= i < all.len() ==> balance(d, (#[trigger] all[i]).0, all[i].1, as_of) is Some
}

/// The balances as of a day, by path and currency.
pub open spec fn balances(d: DataV, as_of: int) -> Seq<BalanceV> {
    sort::arranged(held(d.postings, as_of), sort::order(balance_keys(d, as_of))).map_values(
        |k: (int, Currency)| balance_of(d, k, as_of),
    )
}

pub open spec fn held_views(v: Seq<(i64, Currency)>) -> Seq<(int, Currency)> {
    v.map_values(|k: (i64, Currency)| (k.0 as int, k.1))
}

proof fn held_accounts_exist(d: DataV, postings: Seq<EntryV>, as_of: int)
    requires
        forall|i: int|
            0 <= i < postings.len() ==> keyed::get(
                d.accounts,
                id_key((#[trigger] postings[i]).account_id),
            ) is Some,
    ensures
        forall|i: int|
            0 <= i < held(postings, as_of).len() ==> keyed::get(
                d.accounts,
                id_key((#[trigger] held(postings, as_of)[i]).0),
            ) is Some,
    decreases postings.len(),
{
    if postings.len() > 0 {
        assert forall|i: int| 0 <= i < postings.drop_last().len() implies keyed::get(
            d.accounts,
            id_key((#[trigger] postings.drop_last()[i]).account_id),
        ) is Some by {
            assert(postings.drop_last()[i] == postings[i]);
        }
        held_accounts_exist(d, postings.drop_last(), as_of);
    }
}

impl LedgerData {
    /// The accounts and currencies something was posted to through `as_of`.
    fn held(&self, as_of: Date) -> (r: Vec<(i64, Currency)>)
        ensures
            held_views(r@) == held(self@.postings, as_of@),
    {
        let ghost all = self@.postings;
        let mut out: Vec<(i64, Currency)> = Vec::new();
        let mut i: usize = 0;
        assert(held_views(out@) =~= Seq::empty());
        while i < self.postings.len()
            invariant
                i <= self.postings@.len(),
                all == entries(self.postings@),
                held_views(out@) == held(all.take(i as int), as_of@),
            decreases self.postings@.len() - i,
        {
            let p = &self.postings[i];
            let ghost before = out@;
            assert(all[i as int] == p@);
            assert(all.take(i as int + 1).drop_last() =~= all.take(i as int));
            if p.date.number() <= as_of.number() && !has_pair(&out, p.account_id, p.currency) {
                out.push((p.account_id, p.currency));
                assert(held_views(out@) =~= held_views(before).push(
                    (p.account_id as int, p.currency),
                ));
            }
            i = i + 1;
        }
        assert(all.take(i as int) =~= all);
        out
    }

    /// The signed sum of what was posted to an account in a currency, if it is
    /// within range.
    pub fn balance(&self, id: i64, currency: Currency, as_of: Date) -> (r: Option<Amount>)
        ensures
            amount::opt(r) == balance(self@, id as int, currency, as_of@),
    {
        let ghost all = self@.postings;
        let ghost posted = amounts(all, id as int, currency, as_of@);
        let mut sum = Amount::zero();
        let mut i: usize = 0;
        while i < self.postings.len()
            invariant
                i <= self.postings@.len(),
                all == entries(self.postings@),
                posted == amounts(all, id as int, currency, as_of@),
                amount::total(amounts(all.take(i as int), id as int, currency, as_of@)) == Some(
                    sum@,
                ),
            decreases self.postings@.len() - i,
        {
            let p = &self.postings[i];
            assert(all[i as int] == p@);
            assert(all.take(i as int + 1).drop_last() =~= all.take(i as int));
            let ghost before = amounts(all.take(i as int), id as int, currency, as_of@);
            if p.account_id == id && p.currency == currency && p.date.number() <= as_of.number() {
                assert(before.push(p.amount@).drop_last() =~= before);
                match sum.plus(&p.amount) {
                    Some(s) => {
                        sum = s;
                    },
                    None => {
                        proof {
                            amounts_grow(all, id as int, currency, as_of@, i as int + 1);
                            let n = amounts(
                                all.take(i as int + 1),
                                id as int,
                                currency,
                                as_of@,
                            ).len();
                            amount::total_stays_out(posted, n as int);
                        }
                        return None;
                    },
                }
            }
            i = i + 1;
        }
        assert(all.take(i as int) =~= all);
        Some(sum)
    }

    /// Are the balances within what a decimal can be?
    pub fn fits(&self, as_of: Date) -> (r: bool)
        ensures
            r == fits(self@, as_of@),
    {
        let held = self.held(as_of);
        let ghost all = self::held(self@.postings, as_of@);
        let mut i: usize = 0;
        while i < held.len()
            invariant
                i <= held@.len() == all.len(),
                held_views(held@) == all,
                all == self::held(self@.postings, as_of@),
                forall|k: int|
                    0 <= k < i ==> balance(self@, (#[trigger] all[k]).0, all[k].1, as_of@) is Some,
            decreases held@.len() - i,
        {
            assert(all[i as int] == (held@[i as int].0 as int, held@[i as int].1));
            if self.balance(held[i].0, held[i].1, as_of).is_none() {
                return false;
            }
            i = i + 1;
        }
        true
    }

    /// Per-account, per-currency balances as of `as_of`: the sum of every
    /// posting dated on or before it (openings are among them — they are
    /// postings against `Equity:Opening-Balances`). Accounts with no activity
    /// do not appear.
    pub fn balances_as_of(&self, as_of: Date) -> (r: Vec<AccountBalance>)
        requires
            fits(self@, as_of@),
        ensures
            balance_views(r@) == balances(self@, as_of@),
    {
        proof {
            use_type_invariant(self);
            held_accounts_exist(self@, self@.postings, as_of@);
        }
        let held = self.held(as_of);
        let ghost all = self::held(self@.postings, as_of@);
        let mut items: Vec<(Key, AccountBalance)> = Vec::new();
        let mut i: usize = 0;
        while i < held.len()
            invariant
                i <= held@.len() == all.len(),
                i == items@.len(),
                held_views(held@) == all,
                all == self::held(self@.postings, as_of@),
                fits(self@, as_of@),
                forall|k: int|
                    0 <= k < all.len() ==> keyed::get(
                        self@.accounts,
                        id_key((#[trigger] all[k]).0),
                    ) is Some,
                forall|k: int|
                    0 <= k < i ==> (#[trigger] items@[k]).0@ == balance_key(self@, all[k])
                        && items@[k].1@ == balance_of(self@, all[k], as_of@),
            decreases held@.len() - i,
        {
            let (account_id, currency) = held[i];
            assert(all[i as int] == (account_id as int, currency));
            let m = keyed::look(&self.accounts, &key_of_id(account_id)).unwrap();
            let amount = self.balance(account_id, currency, as_of).unwrap();
            let b = AccountBalance {
                account_id,
                path: text::copy(m.path.as_str()),
                label: text::copy(m.label.as_str()),
                account_type: m.account_type,
                closed: m.closed,
                currency,
                amount,
                as_of,
            };
            let key = Key {
                text: text::copy(m.path.as_str()),
                numbers: (currency.rank() as i64, account_id, 0, 0),
            };
            assert(b@ =~= balance_of(self@, all[i as int], as_of@));
            items.push((key, b));
            i = i + 1;
        }
        let ghost keys = balance_keys(self@, as_of@);
        assert(sort::keys_of(items@) =~= keys);
        let ghost by = sort::order(keys);
        proof {
            sort::order_is_a_permutation(keys);
        }
        let ghost given = items@;
        let sorted = sort::sort(items);
        let out = values(sorted);
        assert(balance_views(out@) =~= balances(self@, as_of@)) by {
            assert forall|k: int| 0 <= k < out@.len() implies #[trigger] balance_views(out@)[k]
                == balances(self@, as_of@)[k] by {
                assert(out@[k] == sort::arranged(given, by)[k].1);
                assert(given[by[k]].1@ == balance_of(self@, all[by[k]], as_of@));
            }
        }
        out
    }
}

/// The sorted items without their keys.
pub(crate) fn values<T>(items: Vec<(Key, T)>) -> (r: Vec<T>)
    ensures
        r@.len() == items@.len(),
        forall|i: int| 0 <= i < r@.len() ==> #[trigger] r@[i] == items@[i].1,
{
    let ghost all = items@;
    let mut rest = items;
    let mut out: Vec<T> = Vec::new();
    assert(rest@ =~= all.skip(0));
    while rest.len() > 0
        invariant
            out@.len() + rest@.len() == all.len(),
            rest@ == all.skip(out@.len() as int),
            forall|i: int| 0 <= i < out@.len() ==> #[trigger] out@[i] == all[i].1,
        decreases rest@.len(),
    {
        let (_, v) = rest.remove(0);
        out.push(v);
        assert(rest@ =~= all.skip(out@.len() as int));
    }
    out
}

fn has_pair(v: &Vec<(i64, Currency)>, id: i64, c: Currency) -> (r: bool)
    ensures
        r == held_views(v@).contains((id as int, c)),
{
    let ghost all = held_views(v@);
    let mut i: usize = 0;
    while i < v.len()
        invariant
            i <= v@.len(),
            all == held_views(v@),
            forall|k: int| 0 <= k < i ==> #[trigger] all[k] != (id as int, c),
        decreases v@.len() - i,
    {
        assert(all[i as int] == (v@[i as int].0 as int, v@[i as int].1));
        if v[i].0 == id && v[i].1 == c {
            return true;
        }
        i = i + 1;
    }
    false
}

proof fn amounts_grow(postings: Seq<EntryV>, id: int, c: Currency, as_of: int, n: int)
    requires
        0 <= n <= postings.len(),
    ensures
        amounts(postings.take(n), id, c, as_of).len() <= amounts(postings, id, c, as_of).len(),
        amounts(postings, id, c, as_of).take(
            amounts(postings.take(n), id, c, as_of).len() as int,
        ) == amounts(postings.take(n), id, c, as_of),
    decreases postings.len(),
{
    if n < postings.len() {
        let shorter = postings.drop_last();
        amounts_grow(shorter, id, c, as_of, n);
        assert(shorter.take(n) =~= postings.take(n));
        let part = amounts(postings.take(n), id, c, as_of);
        assert(amounts(postings, id, c, as_of).take(part.len() as int) =~= amounts(
            shorter,
            id,
            c,
            as_of,
        ).take(part.len() as int));
    } else {
        assert(postings.take(n) =~= postings);
        let all = amounts(postings, id, c, as_of);
        assert(all.take(all.len() as int) =~= all);
    }
}

/// Every balance has a posting.
pub proof fn balances_are_posted(d: DataV, as_of: int)
    ensures
        forall|i: int|
            0 <= i < balances(d, as_of).len() ==> last_posting(
                d.postings,
                (#[trigger] balances(d, as_of)[i]).account_id,
                balances(d, as_of)[i].currency,
            ) is Some,
{
    let all = held(d.postings, as_of);
    let keys = balance_keys(d, as_of);
    sort::order_is_a_permutation(keys);
    held_is_posted(d.postings, as_of);
    assert forall|i: int| 0 <= i < balances(d, as_of).len() implies last_posting(
        d.postings,
        (#[trigger] balances(d, as_of)[i]).account_id,
        balances(d, as_of)[i].currency,
    ) is Some by {
        let k = sort::order(keys)[i];
        assert(balances(d, as_of)[i] == balance_of(d, all[k], as_of));
    }
}

/// Per-account, per-currency balances as of a date, if they are within range.
pub fn account_balances(data: &LedgerData, as_of: Date) -> (r: Result<Vec<AccountBalance>, Refusal>)
    ensures
        match r {
            Ok(v) => fits(data@, as_of@) && balance_views(v@) == balances(data@, as_of@),
            Err(e) => !fits(data@, as_of@) && e@ == refusal::out_of_range(),
        },
{
    if data.fits(as_of) {
        Ok(data.balances_as_of(as_of))
    } else {
        Err(Refusal::out_of_range())
    }
}

/// The newest day something was posted to an account in a currency.
pub open spec fn last_posting(postings: Seq<EntryV>, id: int, c: Currency) -> Option<int>
    decreases postings.len(),
{
    if postings.len() == 0 {
        None
    } else {
        let rest = last_posting(postings.drop_last(), id, c);
        let p = postings.last();
        if p.account_id == id && p.currency == c && (rest is None || rest->0 < p.date) {
            Some(p.date)
        } else {
            rest
        }
    }
}

/// What the newest postings are sorted by: the account, then the currency.
pub open spec fn last_keys(postings: Seq<EntryV>) -> Seq<KeyV> {
    held(postings, date::MAX_DAY as int).map_values(
        |k: (int, Currency)|
            KeyV { text: Seq::empty(), numbers: (k.0, currency::rank(k.1), 0, 0) },
    )
}

/// The newest posting on each account and currency.
pub open spec fn last_dates(postings: Seq<EntryV>) -> Seq<(int, Currency, int)> {
    sort::arranged(
        held(postings, date::MAX_DAY as int),
        sort::order(last_keys(postings)),
    ).map_values(
        |k: (int, Currency)| (k.0, k.1, last_posting(postings, k.0, k.1)->0),
    )
}

pub open spec fn dated_views(v: Seq<(i64, Currency, Date)>) -> Seq<(int, Currency, int)> {
    v.map_values(|e: (i64, Currency, Date)| (e.0 as int, e.1, e.2@))
}

/// Is something posted in `c`?
pub open spec fn used(postings: Seq<EntryV>, c: Currency) -> bool {
    exists|i: int| 0 <= i < postings.len() && (#[trigger] postings[i]).currency == c
}

pub open spec fn used_among(postings: Seq<EntryV>, all: Seq<Currency>) -> Seq<Currency>
    decreases all.len(),
{
    if all.len() == 0 {
        Seq::empty()
    } else {
        let rest = used_among(postings, all.drop_last());
        if used(postings, all.last()) {
            rest.push(all.last())
        } else {
            rest
        }
    }
}

/// Every account's label, by path.
pub open spec fn labels(accounts: Seq<(KeyV, MetaV)>) -> Seq<(KeyV, Seq<char>)>
    decreases accounts.len(),
{
    if accounts.len() == 0 {
        Seq::empty()
    } else {
        let m = accounts.last().1;
        keyed::put(labels(accounts.drop_last()), sort::text_key(m.path), m.label)
    }
}

proof fn held_is_posted(postings: Seq<EntryV>, as_of: int)
    ensures
        forall|i: int|
            0 <= i < held(postings, as_of).len() ==> last_posting(
                postings,
                (#[trigger] held(postings, as_of)[i]).0,
                held(postings, as_of)[i].1,
            ) is Some,
    decreases postings.len(),
{
    if postings.len() > 0 {
        held_is_posted(postings.drop_last(), as_of);
        let all = held(postings, as_of);
        let rest = held(postings.drop_last(), as_of);
        assert forall|i: int| 0 <= i < all.len() implies last_posting(
            postings,
            (#[trigger] all[i]).0,
            all[i].1,
        ) is Some by {
            if i < rest.len() {
                assert(all[i] == rest[i]);
            }
        }
    }
}

impl LedgerData {
    /// The newest posting on an account in a currency.
    pub fn last_posting(&self, id: i64, currency: Currency) -> (r: Option<Date>)
        ensures
            date::opt(r) == last_posting(self@.postings, id as int, currency),
    {
        let ghost all = self@.postings;
        let mut latest: Option<Date> = None;
        let mut i: usize = 0;
        while i < self.postings.len()
            invariant
                i <= self.postings@.len(),
                all == entries(self.postings@),
                date::opt(latest) == last_posting(all.take(i as int), id as int, currency),
            decreases self.postings@.len() - i,
        {
            let p = &self.postings[i];
            assert(all[i as int] == p@);
            assert(all.take(i as int + 1).drop_last() =~= all.take(i as int));
            if p.account_id == id && p.currency == currency {
                latest = match latest {
                    Some(d) => if d.number() < p.date.number() {
                        Some(p.date)
                    } else {
                        Some(d)
                    },
                    None => Some(p.date),
                };
            }
            i = i + 1;
        }
        assert(all.take(i as int) =~= all);
        latest
    }

    /// The newest posting on each account and currency.
    pub fn last_posting_dates(&self) -> (r: Vec<(i64, Currency, Date)>)
        ensures
            dated_views(r@) == last_dates(self@.postings),
    {
        let end = Date::from_number(date::MAX_DAY).unwrap();
        let held = self.held(end);
        let ghost all = self::held(self@.postings, end@);
        proof {
            held_is_posted(self@.postings, end@);
        }
        let mut items: Vec<(Key, (i64, Currency, Date))> = Vec::new();
        let mut i: usize = 0;
        while i < held.len()
            invariant
                i <= held@.len() == all.len(),
                i == items@.len(),
                held_views(held@) == all,
                forall|k: int|
                    0 <= k < all.len() ==> last_posting(
                        self@.postings,
                        (#[trigger] all[k]).0,
                        all[k].1,
                    ) is Some,
                forall|k: int|
                    0 <= k < i ==> (#[trigger] items@[k]).0@ == (KeyV {
                        text: Seq::empty(),
                        numbers: (all[k].0, currency::rank(all[k].1), 0, 0),
                    }) && items@[k].1.0 == all[k].0 && items@[k].1.1 == all[k].1
                        && items@[k].1.2@ == last_posting(
                        self@.postings,
                        all[k].0,
                        all[k].1,
                    )->0,
            decreases held@.len() - i,
        {
            let (id, currency) = held[i];
            assert(all[i as int] == (id as int, currency));
            let day = self.last_posting(id, currency).unwrap();
            let none = String::new();
            assert(none@ =~= Seq::empty());
            items.push(
                (
                    Key { text: none, numbers: (id, currency.rank() as i64, 0, 0) },
                    (id, currency, day),
                ),
            );
            i = i + 1;
        }
        let ghost keys = last_keys(self@.postings);
        assert(sort::keys_of(items@) =~= keys);
        let ghost by = sort::order(keys);
        proof {
            sort::order_is_a_permutation(keys);
        }
        let ghost given = items@;
        let sorted = sort::sort(items);
        let out = values(sorted);
        assert(dated_views(out@) =~= last_dates(self@.postings)) by {
            assert forall|k: int| 0 <= k < out@.len() implies #[trigger] dated_views(out@)[k]
                == last_dates(self@.postings)[k] by {
                assert(out@[k] == sort::arranged(given, by)[k].1);
                assert(given[by[k]].1.0 == all[by[k]].0);
            }
        }
        out
    }

    /// Every currency the ledger holds.
    pub fn currencies(&self) -> (r: Vec<Currency>)
        ensures
            r@ == used_among(
                self@.postings,
                seq![Currency::JPY, Currency::TWD, Currency::USD],
            ),
    {
        let all: Vec<Currency> = vec![Currency::JPY, Currency::TWD, Currency::USD];
        assert(all@ =~= seq![Currency::JPY, Currency::TWD, Currency::USD]);
        let mut out: Vec<Currency> = Vec::new();
        let mut i: usize = 0;
        while i < all.len()
            invariant
                i <= all@.len(),
                out@ == used_among(self@.postings, all@.take(i as int)),
            decreases all@.len() - i,
        {
            assert(all@.take(i as int + 1).drop_last() =~= all@.take(i as int));
            let c = all[i];
            if self.uses(c) {
                out.push(c);
            }
            i = i + 1;
        }
        assert(all@.take(i as int) =~= all@);
        out
    }

    fn uses(&self, c: Currency) -> (r: bool)
        ensures
            r == used(self@.postings, c),
    {
        let ghost all = self@.postings;
        let mut i: usize = 0;
        while i < self.postings.len()
            invariant
                i <= self.postings@.len(),
                all == entries(self.postings@),
                all == self@.postings,
                forall|k: int| 0 <= k < i ==> (#[trigger] all[k]).currency != c,
            decreases self.postings@.len() - i,
        {
            assert(all[i as int] == self.postings@[i as int]@);
            if self.postings[i].currency == c {
                return true;
            }
            i = i + 1;
        }
        false
    }

    /// Every account's label by path, including the group levels with no
    /// postings of their own.
    pub fn labels(&self) -> (r: Vec<(Key, String)>)
        ensures
            keyed::entries(r@) == labels(self@.accounts),
    {
        let ghost all = self@.accounts;
        let mut out: Vec<(Key, String)> = Vec::new();
        let mut i: usize = 0;
        assert(keyed::entries(out@) =~= Seq::empty());
        while i < self.accounts.len()
            invariant
                i <= self.accounts@.len(),
                all == keyed::entries(self.accounts@),
                keyed::entries(out@) == labels(all.take(i as int)),
            decreases self.accounts@.len() - i,
        {
            let m = &self.accounts[i].1;
            assert(all[i as int].1 == m@);
            assert(all.take(i as int + 1).drop_last() =~= all.take(i as int));
            keyed::set(&mut out, Key::of_text(m.path.as_str()), text::copy(m.label.as_str()));
            i = i + 1;
        }
        assert(all.take(i as int) =~= all);
        out
    }
}

/// Does a balance add to net worth: an asset or liability not carried at cost?
/// Equity is out, so the `Equity:Conversions` plug never counts.
pub open spec fn counts(b: BalanceV, roots: Seq<Seq<char>>) -> bool {
    on_balance_sheet(b.account_type) && !accounts::under_any(b.path, roots)
}

/// Does a balance add to net worth?
pub fn in_net_worth(b: &AccountBalance, at_cost: &AtCost) -> (r: bool)
    ensures
        r == counts(b@, at_cost@),
{
    b.account_type.is_on_balance_sheet() && !at_cost.covers(b.path.as_str())
}

/// Total assets and liabilities at one instant, converted to a base currency.
#[derive(Clone, Debug, PartialEq)]
pub struct NetWorthPoint {
    pub date: Date,
    /// Signed sum of asset-account balances, in `base`.
    pub assets: Amount,
    /// Signed sum of liability-account balances, in `base` (normally ≤ 0).
    pub liabilities: Amount,
    /// `assets + liabilities`.
    pub net: Amount,
}

pub struct PointV {
    pub date: int,
    pub assets: Dec,
    pub liabilities: Dec,
    pub net: Dec,
}

impl View for NetWorthPoint {
    type V = PointV;

    open spec fn view(&self) -> PointV {
        PointV {
            date: self.date@,
            assets: self.assets@,
            liabilities: self.liabilities@,
            net: self.net@,
        }
    }
}

/// What a report is made with.
pub struct Terms {
    pub base: Currency,
    /// The accounts carried at cost.
    pub roots: Seq<Seq<char>>,
    pub prices: Seq<SeriesV>,
}

/// A total and an amount more, or that it is out of range.
pub open spec fn more(t: Dec, a: Dec) -> Result<Dec, Seq<char>> {
    match amount::sum(t, a) {
        Some(s) => Ok(s),
        None => Err(refusal::out_of_range()),
    }
}

/// The total of the assets and the total of the liabilities among the
/// balances, in the base currency. Only what counts is converted, so a
/// currency seen solely on an excluded account needs no rate.
pub open spec fn sides(t: Terms, bs: Seq<BalanceV>, as_of: int) -> Result<(Dec, Dec), Seq<char>>
    decreases bs.len(),
{
    if bs.len() == 0 {
        Ok((amount::zero(), amount::zero()))
    } else {
        match sides(t, bs.drop_last(), as_of) {
            Err(e) => Err(e),
            Ok((assets, liabilities)) => {
                let b = bs.last();
                if !counts(b, t.roots) {
                    Ok((assets, liabilities))
                } else {
                    match rates::converted(t.prices, b.amount, b.currency, t.base, as_of) {
                        Err(e) => Err(e),
                        Ok(x) => if b.account_type == AccountType::Asset {
                            match more(assets, x) {
                                Ok(s) => Ok((s, liabilities)),
                                Err(e) => Err(e),
                            }
                        } else {
                            match more(liabilities, x) {
                                Ok(s) => Ok((assets, s)),
                                Err(e) => Err(e),
                            }
                        },
                    }
                }
            },
        }
    }
}

/// Net worth as of a date: the balances that count, converted into the base
/// currency at the rate in effect on that date.
pub open spec fn net_worth(d: DataV, t: Terms, as_of: int) -> Result<PointV, Seq<char>> {
    if !fits(d, as_of) {
        Err(refusal::out_of_range())
    } else {
        match sides(t, balances(d, as_of), as_of) {
            Err(e) => Err(e),
            Ok((assets, liabilities)) => match more(assets, liabilities) {
                Err(e) => Err(e),
                Ok(net) => Ok(PointV { date: as_of, assets, liabilities, net }),
            },
        }
    }
}

proof fn refused_sides_stay(t: Terms, bs: Seq<BalanceV>, as_of: int, n: int)
    requires
        0 <= n <= bs.len(),
        sides(t, bs.take(n), as_of) is Err,
    ensures
        sides(t, bs, as_of) == sides(t, bs.take(n), as_of),
    decreases bs.len() - n,
{
    if n < bs.len() {
        assert(bs.take(n + 1).drop_last() =~= bs.take(n));
        refused_sides_stay(t, bs, as_of, n + 1);
    } else {
        assert(bs.take(n) =~= bs);
    }
}

/// The total of the two, or that it is out of range.
fn plus(t: &Amount, a: &Amount) -> (r: Result<Amount, Refusal>)
    ensures
        match r {
            Ok(s) => more(t@, a@) == Ok::<Dec, Seq<char>>(s@),
            Err(e) => more(t@, a@) == Err::<Dec, Seq<char>>(e@),
        },
{
    match t.plus(a) {
        Some(s) => Ok(s),
        None => Err(Refusal::out_of_range()),
    }
}

impl LedgerData {
    /// Net worth as of a date: the balances [`in_net_worth`] counts, converted
    /// into `base` at the rate in effect on that date.
    pub fn net_worth_as_of(
        &self,
        base: Currency,
        at_cost: &AtCost,
        as_of: Date,
        prices: &PriceTable,
    ) -> (r: Result<NetWorthPoint, Refusal>)
        ensures
            match r {
                Ok(p) => net_worth(
                    self@,
                    Terms { base, roots: at_cost@, prices: prices@ },
                    as_of@,
                ) == Ok::<PointV, Seq<char>>(p@),
                Err(e) => net_worth(
                    self@,
                    Terms { base, roots: at_cost@, prices: prices@ },
                    as_of@,
                ) == Err::<PointV, Seq<char>>(e@),
            },
    {
        let ghost t = Terms { base, roots: at_cost@, prices: prices@ };
        let all = account_balances(self, as_of)?;
        let ghost bs = balance_views(all@);
        let mut assets = Amount::zero();
        let mut liabilities = Amount::zero();
        let mut i: usize = 0;
        while i < all.len()
            invariant
                i <= all@.len(),
                t == (Terms { base, roots: at_cost@, prices: prices@ }),
                bs == balance_views(all@),
                bs == balances(self@, as_of@),
                fits(self@, as_of@),
                sides(t, bs.take(i as int), as_of@) == Ok::<(Dec, Dec), Seq<char>>(
                    (assets@, liabilities@),
                ),
            decreases all@.len() - i,
        {
            let b = &all[i];
            assert(bs[i as int] == b@);
            assert(bs.take(i as int + 1).drop_last() =~= bs.take(i as int));
            if in_net_worth(b, at_cost) {
                let x = match rates::convert_as_of(b.amount, b.currency, base, as_of, prices) {
                    Ok(x) => x,
                    Err(e) => {
                        proof {
                            refused_sides_stay(t, bs, as_of@, i as int + 1);
                        }
                        return Err(e);
                    },
                };
                let side = match b.account_type {
                    AccountType::Asset => plus(&assets, &x),
                    _ => plus(&liabilities, &x),
                };
                match side {
                    Ok(s) => match b.account_type {
                        AccountType::Asset => {
                            assets = s;
                        },
                        _ => {
                            liabilities = s;
                        },
                    },
                    Err(e) => {
                        proof {
                            refused_sides_stay(t, bs, as_of@, i as int + 1);
                        }
                        return Err(e);
                    },
                }
            }
            i = i + 1;
        }
        assert(bs.take(i as int) =~= bs);
        let net = plus(&assets, &liabilities)?;
        Ok(NetWorthPoint { date: as_of, assets, liabilities, net })
    }
}

/// Net worth sampled at the end of each period.
#[derive(Clone, Debug, PartialEq)]
pub struct NetWorthSeries {
    pub base: Currency,
    pub grain: Grain,
    pub points: Vec<NetWorthPoint>,
}

pub open spec fn point_views(v: Seq<NetWorthPoint>) -> Seq<PointV> {
    v.map_values(|p: NetWorthPoint| p@)
}

pub open spec fn earlier(a: int, b: int) -> int {
    if b < a {
        b
    } else {
        a
    }
}

pub open spec fn later(a: int, b: int) -> int {
    if b > a {
        b
    } else {
        a
    }
}

/// Net worth at the end of each period, or at the end of the range for the
/// last.
pub open spec fn worth_over(d: DataV, t: Terms, spans: Seq<(int, int)>, end: int) -> Result<
    Seq<PointV>,
    Seq<char>,
>
    decreases spans.len(),
{
    if spans.len() == 0 {
        Ok(Seq::empty())
    } else {
        match worth_over(d, t, spans.drop_last(), end) {
            Err(e) => Err(e),
            Ok(rest) => match net_worth(d, t, earlier(spans.last().1, end)) {
                Err(e) => Err(e),
                Ok(p) => Ok(rest.push(p)),
            },
        }
    }
}

proof fn refused_worth_stays(d: DataV, t: Terms, spans: Seq<(int, int)>, end: int, n: int)
    requires
        0 <= n <= spans.len(),
        worth_over(d, t, spans.take(n), end) is Err,
    ensures
        worth_over(d, t, spans, end) == worth_over(d, t, spans.take(n), end),
    decreases spans.len() - n,
{
    if n < spans.len() {
        assert(spans.take(n + 1).drop_last() =~= spans.take(n));
        refused_worth_stays(d, t, spans, end, n + 1);
    } else {
        assert(spans.take(n) =~= spans);
    }
}

fn earlier_of(a: Date, b: Date) -> (r: Date)
    ensures
        r@ == earlier(a@, b@),
{
    if b.number() < a.number() {
        b
    } else {
        a
    }
}

fn later_of(a: Date, b: Date) -> (r: Date)
    ensures
        r@ == later(a@, b@),
{
    if b.number() > a.number() {
        b
    } else {
        a
    }
}

/// Net worth sampled at the end of each period across `[start, end]`, in
/// `base`.
pub fn net_worth_over_time(
    data: &LedgerData,
    base: Currency,
    at_cost: &AtCost,
    start: Date,
    end: Date,
    grain: Grain,
    prices: &PriceTable,
) -> (r: Result<NetWorthSeries, Refusal>)
    requires
        periods::in_calendar(start@, end@, grain),
    ensures
        match r {
            Ok(s) => s.base == base && s.grain == grain && worth_over(
                data@,
                Terms { base, roots: at_cost@, prices: prices@ },
                periods::periods(periods::period_start(start@, grain), end@, grain),
                end@,
            ) == Ok::<Seq<PointV>, Seq<char>>(point_views(s.points@)),
            Err(e) => worth_over(
                data@,
                Terms { base, roots: at_cost@, prices: prices@ },
                periods::periods(periods::period_start(start@, grain), end@, grain),
                end@,
            ) == Err::<Seq<PointV>, Seq<char>>(e@),
        },
{
    let ghost t = Terms { base, roots: at_cost@, prices: prices@ };
    let all = periods::generate_periods(start, end, grain);
    let ghost spans = periods::span_views(all@);
    let mut points: Vec<NetWorthPoint> = Vec::new();
    let mut i: usize = 0;
    assert(point_views(points@) =~= Seq::empty());
    while i < all.len()
        invariant
            i <= all@.len(),
            t == (Terms { base, roots: at_cost@, prices: prices@ }),
            spans == periods::span_views(all@),
            spans == periods::periods(periods::period_start(start@, grain), end@, grain),
            worth_over(data@, t, spans.take(i as int), end@) == Ok::<Seq<PointV>, Seq<char>>(
                point_views(points@),
            ),
        decreases all@.len() - i,
    {
        let ghost before = points@;
        assert(spans[i as int] == (all@[i as int].0@, all@[i as int].1@));
        assert(spans.take(i as int + 1).drop_last() =~= spans.take(i as int));
        match data.net_worth_as_of(base, at_cost, earlier_of(all[i].1, end), prices) {
            Ok(p) => {
                points.push(p);
                assert(point_views(points@) =~= point_views(before).push(p@));
            },
            Err(e) => {
                proof {
                    refused_worth_stays(data@, t, spans, end@, i as int + 1);
                }
                return Err(e);
            },
        }
        i = i + 1;
    }
    assert(spans.take(i as int) =~= spans);
    Ok(NetWorthSeries { base, grain, points })
}

/// Income and expense flow within one period, converted to a base currency.
/// Both are reported as positive magnitudes — money in and money out — so
/// `net` (savings) is `income - expense`.
#[derive(Clone, Debug, PartialEq)]
pub struct Period {
    pub start: Date,
    pub end: Date,
    pub income: Amount,
    pub expense: Amount,
    pub net: Amount,
}

pub struct PeriodV {
    pub start: int,
    pub end: int,
    pub income: Dec,
    pub expense: Dec,
    pub net: Dec,
}

impl View for Period {
    type V = PeriodV;

    open spec fn view(&self) -> PeriodV {
        PeriodV {
            start: self.start@,
            end: self.end@,
            income: self.income@,
            expense: self.expense@,
            net: self.net@,
        }
    }
}

pub open spec fn period_views(v: Seq<Period>) -> Seq<PeriodV> {
    v.map_values(|p: Period| p@)
}

/// Income/expense flow grouped by period.
#[derive(Clone, Debug, PartialEq)]
pub struct PeriodicReport {
    pub base: Currency,
    pub grain: Grain,
    pub periods: Vec<Period>,
}

/// The days a report covers.
pub struct Range {
    pub start: int,
    pub end: int,
    pub grain: Grain,
}

/// The income and expense of a period after one more posting. Income legs are
/// credit-negative, so they are subtracted into positive revenue; expense legs
/// are debit-positive already. Only flow legs are converted, at the posting's
/// own date, so a balance-sheet leg in a currency with no rate does not fail
/// the report.
pub open spec fn flow(d: DataV, base: Currency, prices: Seq<SeriesV>, f: (Dec, Dec), p: EntryV) -> Result<
    (Dec, Dec),
    Seq<char>,
> {
    let x = rates::converted(prices, p.amount, p.currency, base, p.date);
    match meta(d, p.account_id).account_type {
        AccountType::Income => match x {
            Err(e) => Err(e),
            Ok(x) => match amount::difference(f.0, x) {
                Some(s) => Ok((s, f.1)),
                None => Err(refusal::out_of_range()),
            },
        },
        AccountType::Expense => match x {
            Err(e) => Err(e),
            Ok(x) => match amount::sum(f.1, x) {
                Some(s) => Ok((f.0, s)),
                None => Err(refusal::out_of_range()),
            },
        },
        _ => Ok(f),
    }
}

/// The income and expense of each period by its first day, 0 for a quiet one.
pub open spec fn flows(
    d: DataV,
    base: Currency,
    prices: Seq<SeriesV>,
    r: Range,
    postings: Seq<EntryV>,
) -> Result<Map<int, (Dec, Dec)>, Seq<char>>
    decreases postings.len(),
{
    if postings.len() == 0 {
        Ok(Map::new(|s: int| true, |s: int| (amount::zero(), amount::zero())))
    } else {
        match flows(d, base, prices, r, postings.drop_last()) {
            Err(e) => Err(e),
            Ok(m) => {
                let p = postings.last();
                let s = periods::period_start(p.date, r.grain);
                if r.start <= p.date <= r.end {
                    match flow(d, base, prices, m[s], p) {
                        Err(e) => Err(e),
                        Ok(f) => Ok(m.insert(s, f)),
                    }
                } else {
                    Ok(m)
                }
            },
        }
    }
}

/// The periods of a report: each period's own income and expense. A partial
/// first or last period's bounds are those of the range.
pub open spec fn reported(r: Range, spans: Seq<(int, int)>, m: Map<int, (Dec, Dec)>) -> Result<
    Seq<PeriodV>,
    Seq<char>,
>
    decreases spans.len(),
{
    if spans.len() == 0 {
        Ok(Seq::empty())
    } else {
        match reported(r, spans.drop_last(), m) {
            Err(e) => Err(e),
            Ok(rest) => {
                let (start, end) = spans.last();
                match amount::difference(m[start].0, m[start].1) {
                    None => Err(refusal::out_of_range()),
                    Some(net) => Ok(
                        rest.push(
                            PeriodV {
                                start: later(start, r.start),
                                end: earlier(end, r.end),
                                income: m[start].0,
                                expense: m[start].1,
                                net,
                            },
                        ),
                    ),
                }
            },
        }
    }
}

/// Income and expense flow, grouped by period.
pub open spec fn periodic(d: DataV, base: Currency, prices: Seq<SeriesV>, r: Range) -> Result<
    Seq<PeriodV>,
    Seq<char>,
> {
    match flows(d, base, prices, r, d.postings) {
        Err(e) => Err(e),
        Ok(m) => reported(
            r,
            periods::periods(periods::period_start(r.start, r.grain), r.end, r.grain),
            m,
        ),
    }
}

proof fn refused_flows_stay(
    d: DataV,
    base: Currency,
    prices: Seq<SeriesV>,
    r: Range,
    postings: Seq<EntryV>,
    n: int,
)
    requires
        0 <= n <= postings.len(),
        flows(d, base, prices, r, postings.take(n)) is Err,
    ensures
        flows(d, base, prices, r, postings) == flows(d, base, prices, r, postings.take(n)),
    decreases postings.len() - n,
{
    if n < postings.len() {
        assert(postings.take(n + 1).drop_last() =~= postings.take(n));
        refused_flows_stay(d, base, prices, r, postings, n + 1);
    } else {
        assert(postings.take(n) =~= postings);
    }
}

proof fn refused_reports_stay(r: Range, spans: Seq<(int, int)>, m: Map<int, (Dec, Dec)>, n: int)
    requires
        0 <= n <= spans.len(),
        reported(r, spans.take(n), m) is Err,
    ensures
        reported(r, spans, m) == reported(r, spans.take(n), m),
    decreases spans.len() - n,
{
    if n < spans.len() {
        assert(spans.take(n + 1).drop_last() =~= spans.take(n));
        refused_reports_stay(r, spans, m, n + 1);
    } else {
        assert(spans.take(n) =~= spans);
    }
}

/// The income and expense of a period after one more posting.
fn flow_of(
    kind: AccountType,
    base: Currency,
    prices: &PriceTable,
    income: Amount,
    expense: Amount,
    p: &PostingEntry,
    Ghost(d): Ghost<DataV>,
) -> (r: Result<(Amount, Amount), Refusal>)
    requires
        kind == meta(d, p@.account_id).account_type,
    ensures
        match r {
            Ok(f) => flow(d, base, prices@, (income@, expense@), p@) == Ok::<(Dec, Dec), Seq<char>>(
                (f.0@, f.1@),
            ),
            Err(e) => flow(d, base, prices@, (income@, expense@), p@) == Err::<
                (Dec, Dec),
                Seq<char>,
            >(e@),
        },
{
    match kind {
        AccountType::Income => {
            let x = rates::convert_as_of(p.amount, p.currency, base, p.date, prices)?;
            match income.minus(&x) {
                Some(s) => Ok((s, expense)),
                None => Err(Refusal::out_of_range()),
            }
        },
        AccountType::Expense => {
            let x = rates::convert_as_of(p.amount, p.currency, base, p.date, prices)?;
            match expense.plus(&x) {
                Some(s) => Ok((income, s)),
                None => Err(Refusal::out_of_range()),
            }
        },
        _ => Ok((income, expense)),
    }
}

/// Where the period that starts on `day` is.
fn span_at(all: &Vec<(Date, Date)>, day: Date) -> (r: Option<usize>)
    ensures
        match r {
            Some(i) => i < all@.len() && all@[i as int].0@ == day@,
            None => forall|i: int| 0 <= i < all@.len() ==> (#[trigger] all@[i]).0@ != day@,
        },
{
    let mut i: usize = 0;
    while i < all.len()
        invariant
            i <= all@.len(),
            forall|k: int| 0 <= k < i ==> (#[trigger] all@[k]).0@ != day@,
        decreases all@.len() - i,
    {
        if all[i].0.number() == day.number() {
            return Some(i);
        }
        i = i + 1;
    }
    None
}

/// Do the sums stand for the flows of the periods?
spec fn stand_for(
    sums: Seq<(Amount, Amount)>,
    spans: Seq<(int, int)>,
    m: Map<int, (Dec, Dec)>,
) -> bool {
    &&& sums.len() == spans.len()
    &&& forall|i: int|
        0 <= i < spans.len() ==> m[(#[trigger] spans[i]).0] == (sums[i].0@, sums[i].1@)
}

pub(crate) proof fn starts_in_strict_order(start: int, end: int, grain: Grain, i: int, j: int)
    requires
        0 <= i < j < periods::periods(start, end, grain).len(),
    ensures
        periods::periods(start, end, grain)[i].0 < periods::periods(start, end, grain)[j].0,
    decreases i,
{
    let next = periods::next_start(start, grain);
    let rest = periods::periods(next, end, grain);
    let all = periods::periods(start, end, grain);
    assert(all[j] == rest[j - 1]);
    if i > 0 {
        assert(all[i] == rest[i - 1]);
        starts_in_strict_order(next, end, grain, i - 1, j - 1);
    } else {
        periods::rest_starts_later(next, end, grain, j - 1);
    }
}

impl LedgerData {
    /// Income and expense flow, grouped by period over `[start, end]`.
    /// Everything is converted into `base` at the posting's own date.
    pub fn periodic_report(
        &self,
        base: Currency,
        start: Date,
        end: Date,
        grain: Grain,
        prices: &PriceTable,
    ) -> (r: Result<PeriodicReport, Refusal>)
        requires
            periods::in_calendar(start@, end@, grain),
        ensures
            match r {
                Ok(p) => p.base == base && p.grain == grain && periodic(
                    self@,
                    base,
                    prices@,
                    Range { start: start@, end: end@, grain },
                ) == Ok::<Seq<PeriodV>, Seq<char>>(period_views(p.periods@)),
                Err(e) => periodic(
                    self@,
                    base,
                    prices@,
                    Range { start: start@, end: end@, grain },
                ) == Err::<Seq<PeriodV>, Seq<char>>(e@),
            },
    {
        proof {
            use_type_invariant(self);
        }
        let ghost d = self@;
        let ghost range = Range { start: start@, end: end@, grain };
        let (from, to): (i32, i32) = (start.number(), end.number());
        // Every period has a place, so quiet ones still report a zero row.
        let all = periods::generate_periods(start, end, grain);
        let ghost spans = periods::span_views(all@);
        let ghost first = periods::period_start(start@, grain);
        proof {
            periods::period_holds_its_days(start@, grain);
        }
        let mut sums: Vec<(Amount, Amount)> = Vec::new();
        while sums.len() < all.len()
            invariant
                sums@.len() <= all@.len(),
                forall|i: int|
                    0 <= i < sums@.len() ==> (#[trigger] sums@[i]).0@ == amount::zero()
                        && sums@[i].1@ == amount::zero(),
            decreases all@.len() - sums@.len(),
        {
            sums.push((Amount::zero(), Amount::zero()));
        }
        let ghost mut m: Map<int, (Dec, Dec)> = flows(
            d,
            base,
            prices@,
            range,
            d.postings.take(0),
        )->Ok_0;
        let mut i: usize = 0;
        assert(stand_for(sums@, spans, m));
        while i < self.postings.len()
            invariant
                i <= self.postings@.len(),
                d == self@,
                whole(d),
                d.postings == entries(self.postings@),
                range == (Range { start: start@, end: end@, grain }),
                from == start@,
                to == end@,
                date::MIN_DAY <= first <= start@ <= date::MAX_DAY,
                date::MIN_DAY <= end@ <= date::MAX_DAY,
                first == periods::period_start(start@, grain),
                periods::period_start(first, grain) == first,
                periods::in_calendar(start@, end@, grain),
                spans == periods::span_views(all@),
                spans == periods::periods(first, end@, grain),
                stand_for(sums@, spans, m),
                flows(d, base, prices@, range, d.postings.take(i as int)) == Ok::<
                    Map<int, (Dec, Dec)>,
                    Seq<char>,
                >(m),
            decreases self.postings@.len() - i,
        {
            let p = &self.postings[i];
            assert(d.postings[i as int] == p@);
            assert(d.postings.take(i as int + 1).drop_last() =~= d.postings.take(i as int));
            let day: i32 = p.date.number();
            if from <= day && day <= to {
                proof {
                    periods::period_holds_its_days(p.date@, grain);
                    periods::periods_cover_the_range(first, end@, grain, p.date@);
                    periods::start_in_calendar(first, p.date@, grain);
                }
                let at = periods::period_start_of(p.date, grain);
                let k = match span_at(&all, at) {
                    Some(k) => k,
                    None => {
                        proof {
                            let j = choose|j: int|
                                0 <= j < spans.len() && (#[trigger] spans[j]).0 == at@ && spans[j].0
                                    <= p.date@ <= spans[j].1;
                            assert(all@[j].0@ == spans[j].0);
                        }
                        0
                    },
                };
                assert(spans[k as int].0 == all@[k as int].0@);
                let kind = keyed::look(
                    &self.accounts,
                    &key_of_id(p.account_id),
                ).unwrap().account_type;
                let (income, expense) = sums[k];
                match flow_of(kind, base, prices, income, expense, p, Ghost(d)) {
                    Ok(f) => {
                        let ghost was = sums@;
                        sums[k] = f;
                        proof {
                            let after = m.insert(at@, (f.0@, f.1@));
                            assert forall|n: int| 0 <= n < spans.len() implies after[(
                            #[trigger] spans[n]).0] == (sums@[n].0@, sums@[n].1@) by {
                                if n < k {
                                    starts_in_strict_order(first, end@, grain, n, k as int);
                                } else if n > k {
                                    starts_in_strict_order(first, end@, grain, k as int, n);
                                }
                            }
                            m = after;
                        }
                    },
                    Err(e) => {
                        proof {
                            refused_flows_stay(
                                d,
                                base,
                                prices@,
                                range,
                                d.postings,
                                i as int + 1,
                            );
                        }
                        return Err(e);
                    },
                }
            }
            i = i + 1;
        }
        assert(d.postings.take(i as int) =~= d.postings);
        let mut periods: Vec<Period> = Vec::new();
        let mut j: usize = 0;
        assert(period_views(periods@) =~= Seq::empty());
        while j < all.len()
            invariant
                j <= all@.len(),
                range == (Range { start: start@, end: end@, grain }),
                spans == periods::span_views(all@),
                spans == periods::periods(
                    periods::period_start(range.start, range.grain),
                    range.end,
                    range.grain,
                ),
                stand_for(sums@, spans, m),
                flows(self@, base, prices@, range, self@.postings) == Ok::<
                    Map<int, (Dec, Dec)>,
                    Seq<char>,
                >(m),
                reported(range, spans.take(j as int), m) == Ok::<Seq<PeriodV>, Seq<char>>(
                    period_views(periods@),
                ),
            decreases all@.len() - j,
        {
            let ghost before = periods@;
            let (period_start, period_end) = all[j];
            let (income, expense) = sums[j];
            assert(spans[j as int] == (period_start@, period_end@));
            assert(spans.take(j as int + 1).drop_last() =~= spans.take(j as int));
            match income.minus(&expense) {
                Some(net) => {
                    let p = Period {
                        start: later_of(period_start, start),
                        end: earlier_of(period_end, end),
                        income,
                        expense,
                        net,
                    };
                    periods.push(p);
                    assert(period_views(periods@) =~= period_views(before).push(p@));
                },
                None => {
                    proof {
                        refused_reports_stay(range, spans, m, j as int + 1);
                    }
                    return Err(Refusal::out_of_range());
                },
            }
            j = j + 1;
        }
        assert(spans.take(j as int) =~= spans);
        Ok(PeriodicReport { base, grain, periods })
    }
}

/// One security position of a portfolio.
#[derive(Clone, Debug, PartialEq)]
pub struct HoldingPosition {
    pub symbol: String,
    pub description: String,
    pub currency: Currency,
    pub quantity: Amount,
    pub total_cost: Amount,
    pub average_cost: Amount,
    pub market_price: Amount,
    pub market_value: Amount,
    pub unrealized_pnl_value: Amount,
    pub unrealized_pnl_percentage: Amount,
    pub realized_pnl_value: Amount,
}

#[verifier::ext_equal]
pub struct PositionV {
    pub symbol: Seq<char>,
    pub description: Seq<char>,
    pub currency: Currency,
    pub quantity: Dec,
    pub total_cost: Dec,
    pub average_cost: Dec,
    pub market_price: Dec,
    pub market_value: Dec,
    pub unrealized_pnl_value: Dec,
    pub unrealized_pnl_percentage: Dec,
    pub realized_pnl_value: Dec,
}

impl View for HoldingPosition {
    type V = PositionV;

    open spec fn view(&self) -> PositionV {
        PositionV {
            symbol: self.symbol@,
            description: self.description@,
            currency: self.currency,
            quantity: self.quantity@,
            total_cost: self.total_cost@,
            average_cost: self.average_cost@,
            market_price: self.market_price@,
            market_value: self.market_value@,
            unrealized_pnl_value: self.unrealized_pnl_value@,
            unrealized_pnl_percentage: self.unrealized_pnl_percentage@,
            realized_pnl_value: self.realized_pnl_value@,
        }
    }
}

pub open spec fn position_views(v: Seq<HoldingPosition>) -> Seq<PositionV> {
    v.map_values(|p: HoldingPosition| p@)
}

/// Holdings as of a date, with their totals. Values are in
/// `reporting_currency`.
#[derive(Clone, Debug, PartialEq)]
pub struct HoldingsReport {
    pub as_of: Date,
    pub reporting_currency: Currency,
    pub positions: Vec<HoldingPosition>,
    pub total_cost: Amount,
    pub total_market_value: Amount,
    pub total_unrealized_pnl: Amount,
    pub total_realized_pnl: Amount,
    pub total_cash: Amount,
    pub total_value: Amount,
}

#[verifier::ext_equal]
pub struct HoldingsV {
    pub as_of: int,
    pub reporting_currency: Currency,
    pub positions: Seq<PositionV>,
    pub total_cost: Dec,
    pub total_market_value: Dec,
    pub total_unrealized_pnl: Dec,
    pub total_realized_pnl: Dec,
    pub total_cash: Dec,
    pub total_value: Dec,
}

impl View for HoldingsReport {
    type V = HoldingsV;

    open spec fn view(&self) -> HoldingsV {
        HoldingsV {
            as_of: self.as_of@,
            reporting_currency: self.reporting_currency,
            positions: position_views(self.positions@),
            total_cost: self.total_cost@,
            total_market_value: self.total_market_value@,
            total_unrealized_pnl: self.total_unrealized_pnl@,
            total_realized_pnl: self.total_realized_pnl@,
            total_cash: self.total_cash@,
            total_value: self.total_value@,
        }
    }
}

/// The total of the amounts, each converted at the rate of `as_of`: not the
/// newest quote, so a historical report does not drift as new quotes arrive.
pub open spec fn converted_total(
    prices: Seq<SeriesV>,
    items: Seq<(Currency, Dec)>,
    to: Currency,
    as_of: int,
) -> Result<Dec, Seq<char>>
    decreases items.len(),
{
    if items.len() == 0 {
        Ok(amount::zero())
    } else {
        match converted_total(prices, items.drop_last(), to, as_of) {
            Err(e) => Err(e),
            Ok(t) => match rates::converted(prices, items.last().1, items.last().0, to, as_of) {
                Err(e) => Err(e),
                Ok(x) => more(t, x),
            },
        }
    }
}

/// Which figure of a position is totalled.
#[derive(Clone, Copy, PartialEq, Eq, Structural)]
pub enum Measure {
    Cost,
    MarketValue,
    Unrealized,
    Realized,
}

pub open spec fn figure(p: PositionV, f: Measure) -> (Currency, Dec) {
    match f {
        Measure::Cost => (p.currency, p.total_cost),
        Measure::MarketValue => (p.currency, p.market_value),
        Measure::Unrealized => (p.currency, p.unrealized_pnl_value),
        Measure::Realized => (p.currency, p.realized_pnl_value),
    }
}

pub open spec fn figures(ps: Seq<PositionV>, f: Measure) -> Seq<(Currency, Dec)> {
    ps.map_values(|p: PositionV| figure(p, f))
}

pub open spec fn cash_views(v: Seq<(Currency, Amount)>) -> Seq<(Currency, Dec)> {
    v.map_values(|c: (Currency, Amount)| (c.0, c.1@))
}

/// The positions by symbol.
pub open spec fn by_symbol(ps: Seq<PositionV>) -> Seq<PositionV> {
    sort::arranged(ps, sort::order(ps.map_values(|p: PositionV| sort::text_key(p.symbol))))
}

/// The report on a portfolio's positions and cash.
pub open spec fn holdings(
    as_of: int,
    to: Currency,
    ps: Seq<PositionV>,
    cash: Seq<(Currency, Dec)>,
    prices: Seq<SeriesV>,
) -> Result<HoldingsV, Seq<char>> {
    let cost = converted_total(prices, figures(ps, Measure::Cost), to, as_of);
    let value = converted_total(prices, figures(ps, Measure::MarketValue), to, as_of);
    let unrealized = converted_total(prices, figures(ps, Measure::Unrealized), to, as_of);
    let realized = converted_total(prices, figures(ps, Measure::Realized), to, as_of);
    let held = converted_total(prices, cash, to, as_of);
    if let Err(e) = cost {
        Err(e)
    } else if let Err(e) = value {
        Err(e)
    } else if let Err(e) = unrealized {
        Err(e)
    } else if let Err(e) = realized {
        Err(e)
    } else if let Err(e) = held {
        Err(e)
    } else {
        match more(value->Ok_0, held->Ok_0) {
            Err(e) => Err(e),
            Ok(total_value) => Ok(
                HoldingsV {
                    as_of,
                    reporting_currency: to,
                    positions: by_symbol(ps),
                    total_cost: cost->Ok_0,
                    total_market_value: value->Ok_0,
                    total_unrealized_pnl: unrealized->Ok_0,
                    total_realized_pnl: realized->Ok_0,
                    total_cash: held->Ok_0,
                    total_value,
                },
            ),
        }
    }
}

proof fn refused_total_stays(
    prices: Seq<SeriesV>,
    items: Seq<(Currency, Dec)>,
    to: Currency,
    as_of: int,
    n: int,
)
    requires
        0 <= n <= items.len(),
        converted_total(prices, items.take(n), to, as_of) is Err,
    ensures
        converted_total(prices, items, to, as_of) == converted_total(
            prices,
            items.take(n),
            to,
            as_of,
        ),
    decreases items.len() - n,
{
    if n < items.len() {
        assert(items.take(n + 1).drop_last() =~= items.take(n));
        refused_total_stays(prices, items, to, as_of, n + 1);
    } else {
        assert(items.take(n) =~= items);
    }
}

fn total_of(items: &Vec<(Currency, Amount)>, to: Currency, as_of: Date, prices: &PriceTable) -> (r:
    Result<Amount, Refusal>)
    ensures
        match r {
            Ok(t) => converted_total(prices@, cash_views(items@), to, as_of@) == Ok::<
                Dec,
                Seq<char>,
            >(t@),
            Err(e) => converted_total(prices@, cash_views(items@), to, as_of@) == Err::<
                Dec,
                Seq<char>,
            >(e@),
        },
{
    let ghost all = cash_views(items@);
    let mut t = Amount::zero();
    let mut i: usize = 0;
    while i < items.len()
        invariant
            i <= items@.len(),
            all == cash_views(items@),
            converted_total(prices@, all.take(i as int), to, as_of@) == Ok::<Dec, Seq<char>>(t@),
        decreases items@.len() - i,
    {
        let (c, a) = items[i];
        assert(all[i as int] == (c, a@));
        assert(all.take(i as int + 1).drop_last() =~= all.take(i as int));
        let step = match rates::convert_as_of(a, c, to, as_of, prices) {
            Ok(x) => plus(&t, &x),
            Err(e) => Err(e),
        };
        match step {
            Ok(s) => {
                t = s;
            },
            Err(e) => {
                proof {
                    refused_total_stays(prices@, all, to, as_of@, i as int + 1);
                }
                return Err(e);
            },
        }
        i = i + 1;
    }
    assert(all.take(i as int) =~= all);
    Ok(t)
}

fn figures_of(ps: &Vec<HoldingPosition>, f: Measure) -> (r: Vec<(Currency, Amount)>)
    ensures
        cash_views(r@) == figures(position_views(ps@), f),
{
    let mut out: Vec<(Currency, Amount)> = Vec::new();
    let mut i: usize = 0;
    while i < ps.len()
        invariant
            i <= ps@.len(),
            i == out@.len(),
            forall|k: int|
                0 <= k < i ==> ((#[trigger] out@[k]).0, out@[k].1@) == figure(ps@[k]@, f),
        decreases ps@.len() - i,
    {
        let p = &ps[i];
        out.push(
            (
                p.currency,
                match f {
                    Measure::Cost => p.total_cost,
                    Measure::MarketValue => p.market_value,
                    Measure::Unrealized => p.unrealized_pnl_value,
                    Measure::Realized => p.realized_pnl_value,
                },
            ),
        );
        i = i + 1;
    }
    assert(cash_views(out@) =~= figures(position_views(ps@), f));
    out
}

/// Reports a portfolio's positions and cash as of a date. The cost-basis,
/// mark-to-market and P&L maths are the portfolio's; every currency total is
/// converted at the `as_of` rate.
pub fn holdings_report(
    as_of: Date,
    reporting_currency: Currency,
    positions: Vec<HoldingPosition>,
    cash: &Vec<(Currency, Amount)>,
    prices: &PriceTable,
) -> (r: Result<HoldingsReport, Refusal>)
    ensures
        match r {
            Ok(h) => holdings(
                as_of@,
                reporting_currency,
                position_views(positions@),
                cash_views(cash@),
                prices@,
            ) == Ok::<HoldingsV, Seq<char>>(h@),
            Err(e) => holdings(
                as_of@,
                reporting_currency,
                position_views(positions@),
                cash_views(cash@),
                prices@,
            ) == Err::<HoldingsV, Seq<char>>(e@),
        },
{
    let ghost ps = position_views(positions@);
    let to = reporting_currency;
    let total_cost = total_of(&figures_of(&positions, Measure::Cost), to, as_of, prices)?;
    let total_market_value = total_of(
        &figures_of(&positions, Measure::MarketValue),
        to,
        as_of,
        prices,
    )?;
    let total_unrealized_pnl = total_of(
        &figures_of(&positions, Measure::Unrealized),
        to,
        as_of,
        prices,
    )?;
    let total_realized_pnl = total_of(
        &figures_of(&positions, Measure::Realized),
        to,
        as_of,
        prices,
    )?;
    let total_cash = total_of(cash, to, as_of, prices)?;
    let total_value = plus(&total_market_value, &total_cash)?;
    let positions = sorted_positions(positions);
    let r = HoldingsReport {
        as_of,
        reporting_currency,
        positions,
        total_cost,
        total_market_value,
        total_unrealized_pnl,
        total_realized_pnl,
        total_cash,
        total_value,
    };
    assert(r@.positions == by_symbol(ps));
    Ok(r)
}

fn sorted_positions(positions: Vec<HoldingPosition>) -> (r: Vec<HoldingPosition>)
    ensures
        position_views(r@) == by_symbol(position_views(positions@)),
{
    let ghost given = positions@;
    let ghost ps = position_views(given);
    let ghost keys = ps.map_values(|p: PositionV| sort::text_key(p.symbol));
    let mut rest = positions;
    let mut items: Vec<(Key, HoldingPosition)> = Vec::new();
    assert(rest@ =~= given.skip(0));
    while rest.len() > 0
        invariant
            items@.len() + rest@.len() == given.len(),
            rest@ == given.skip(items@.len() as int),
            forall|k: int|
                0 <= k < items@.len() ==> (#[trigger] items@[k]).0@ == sort::text_key(
                    given[k].symbol@,
                ) && items@[k].1 == given[k],
        decreases rest@.len(),
    {
        let p = rest.remove(0);
        let key = Key::of_text(p.symbol.as_str());
        items.push((key, p));
        assert(rest@ =~= given.skip(items@.len() as int));
    }
    assert(sort::keys_of(items@) =~= keys);
    proof {
        sort::order_is_a_permutation(keys);
    }
    let ghost by = sort::order(keys);
    let ghost keyed_items = items@;
    let sorted = sort::sort(items);
    let out = values(sorted);
    assert(position_views(out@) =~= by_symbol(ps)) by {
        assert forall|k: int| 0 <= k < out@.len() implies #[trigger] position_views(out@)[k]
            == by_symbol(ps)[k] by {
            assert(out@[k] == sort::arranged(keyed_items, by)[k].1);
            assert(keyed_items[by[k]].1 == given[by[k]]);
        }
    }
    out
}

} // verus!
