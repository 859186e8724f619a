//! The journal loader: the app's only historical-load path.
//!
//! It takes a trusted journal — already reconciled and verified — and says what
//! to write of it. Deliberately dumb: no reconciliation, no chart. It derives
//! the chart of accounts from the paths the journal mentions and their
//! ancestors (type from the root) and, as a cheap tripwire, refuses a
//! transaction whose legs do not sum to zero per currency. It is one-time: it
//! refuses a non-empty database. Frozen history is loaded as reviewed.

use vstd::prelude::*;

use crate::accounts;
use crate::accounts::AccountType as Root;
use crate::amount;
use crate::amount::Dec;
use crate::currency;
use crate::currency::Currency;
use crate::date::Date;
use crate::journal;
use crate::journal::{EntryV, Posting};
use crate::keyed;
use crate::model::Source;
use crate::refusal;
use crate::refusal::Refusal;
use crate::sort;
use crate::sort::{Key, KeyV};
use crate::text;

use super::check;
use super::check::CheckReport;
use super::query::AccountType;
use super::sums;
use super::sums::Tally;

verus! {

/// The schema's word for a root.
pub open spec fn schema_word(root: Root) -> AccountType {
    match root {
        Root::Assets => AccountType::Asset,
        Root::Liabilities => AccountType::Liability,
        Root::Equity => AccountType::Equity,
        Root::Income => AccountType::Income,
        Root::Expenses => AccountType::Expense,
    }
}

/// The schema type of an account path.
pub open spec fn type_at(path: Seq<char>) -> Result<AccountType, Seq<char>> {
    match accounts::root_of(path) {
        Some(root) => Ok(schema_word(root)),
        None => Err(
            text::debug_text(path)
                + " is not a Beancount account (no Assets/Liabilities/… root)"@,
        ),
    }
}

/// The schema type of an account path.
pub fn schema_type(path: &str) -> (r: Result<AccountType, Refusal>)
    ensures
        match r {
            Ok(t) => type_at(path@) == Ok::<AccountType, Seq<char>>(t),
            Err(e) => type_at(path@) == Err::<AccountType, Seq<char>>(e@),
        },
{
    match Root::of_path(path) {
        Some(root) => Ok(
            match root {
                Root::Assets => AccountType::Asset,
                Root::Liabilities => AccountType::Liability,
                Root::Equity => AccountType::Equity,
                Root::Income => AccountType::Income,
                Root::Expenses => AccountType::Expense,
            },
        ),
        None => {
            let mut out = text::quoted(path);
            out.append(" is not a Beancount account (no Assets/Liabilities/… root)");
            Err(Refusal { message: out })
        },
    }
}

/// An account to create.
#[derive(Debug, Clone, PartialEq)]
pub struct NewAccount {
    pub path: String,
    pub account_type: AccountType,
    /// Some leg on it carries the reserved tag.
    pub placeholder: bool,
}

#[verifier::ext_equal]
pub struct NewAccountV {
    pub path: Seq<char>,
    pub account_type: AccountType,
    pub placeholder: bool,
}

impl View for NewAccount {
    type V = NewAccountV;

    open spec fn view(&self) -> NewAccountV {
        NewAccountV {
            path: self.path@,
            account_type: self.account_type,
            placeholder: self.placeholder,
        }
    }
}

pub open spec fn account_views(v: Seq<NewAccount>) -> Seq<NewAccountV> {
    v.map_values(|a: NewAccount| a@)
}

/// The note of a placeholder account.
pub const PLACEHOLDER_NOTE: &'static str =
    "securities value backfilled by the freeze; replace with real positions later (do not double-count)";

/// Does a posting carry the reserved tag?
pub open spec fn is_placeholder(p: EntryV) -> bool {
    p.tags matches Some(tags) && text::holds(tags, journal::PLACEHOLDER_TAG@)
}

/// Does some leg on `path` carry the reserved tag?
pub open spec fn placeholder_at(postings: Seq<EntryV>, path: Seq<char>) -> bool {
    exists|i: int|
        0 <= i < postings.len() && (#[trigger] postings[i]).account == path && is_placeholder(
            postings[i],
        )
}

/// The accounts the postings are on and the ones above them, so every level of
/// the tree has a label.
pub open spec fn all_levels(postings: Seq<EntryV>) -> Seq<Seq<char>>
    decreases postings.len(),
{
    if postings.len() == 0 {
        Seq::empty()
    } else {
        all_levels(postings.drop_last()) + accounts::levels(postings.last().account)
    }
}

/// Is every posting on an account with a root? Checked whole first, so an
/// error names the account, not just its root.
pub open spec fn rooted(postings: Seq<EntryV>) -> Result<(), Seq<char>>
    decreases postings.len(),
{
    if postings.len() == 0 {
        Ok(())
    } else {
        match rooted(postings.drop_last()) {
            Err(e) => Err(e),
            Ok(()) => match type_at(postings.last().account) {
                Err(e) => Err(e),
                Ok(_) => Ok(()),
            },
        }
    }
}

/// The accounts to create at the paths.
pub open spec fn accounts_at(postings: Seq<EntryV>, paths: Seq<Seq<char>>) -> Result<
    Seq<NewAccountV>,
    Seq<char>,
>
    decreases paths.len(),
{
    if paths.len() == 0 {
        Ok(Seq::empty())
    } else {
        match accounts_at(postings, paths.drop_last()) {
            Err(e) => Err(e),
            Ok(rest) => match type_at(paths.last()) {
                Err(e) => Err(e),
                Ok(t) => Ok(
                    rest.push(
                        NewAccountV {
                            path: paths.last(),
                            account_type: t,
                            placeholder: placeholder_at(postings, paths.last()),
                        },
                    ),
                ),
            },
        }
    }
}

/// The key of a group.
pub open spec fn group_key(g: u64) -> KeyV {
    KeyV {
        text: Seq::empty(),
        numbers: (g as int / 0x1_0000_0000, g as int % 0x1_0000_0000, 0, 0),
    }
}

/// The groups of the postings, in order.
pub open spec fn groups(postings: Seq<EntryV>) -> Seq<(KeyV, u64)>
    decreases postings.len(),
{
    if postings.len() == 0 {
        Seq::empty()
    } else {
        let g = postings.last().group;
        keyed::put(groups(postings.drop_last()), group_key(g), g)
    }
}

/// Where the legs of a group are.
pub open spec fn legs_of(postings: Seq<EntryV>, g: u64) -> Seq<int>
    decreases postings.len(),
{
    if postings.len() == 0 {
        Seq::empty()
    } else {
        let rest = legs_of(postings.drop_last(), g);
        if postings.last().group == g {
            rest.push(postings.len() - 1)
        } else {
            rest
        }
    }
}

/// The amounts of the legs.
pub open spec fn amounts_at(postings: Seq<EntryV>, legs: Seq<int>) -> Seq<(Dec, Currency)> {
    legs.map_values(|i: int| (postings[i].amount, postings[i].currency))
}

/// Tripwire: a transaction whose legs do not sum to zero per currency is a
/// corrupt journal, and loading it would break the double-entry invariant.
pub open spec fn level(postings: Seq<EntryV>, g: u64) -> Result<(), Seq<char>> {
    match sums::tally(amounts_at(postings, legs_of(postings, g))) {
        None => Err(refusal::out_of_range()),
        Some(t) => match sums::first_left(t) {
            None => Ok(()),
            Some(c) => Err(
                "journal transaction group "@ + text::digits(g as nat) + " does not balance: "@
                    + amount::printed(sums::in_currency(t, c)) + " "@ + currency::code(c)
                    + " left over"@,
            ),
        },
    }
}

/// A transaction to insert, reviewed.
#[derive(Debug)]
pub struct NewTransaction {
    pub date: Date,
    pub payee: Option<String>,
    pub narration: String,
    pub source: Source,
    pub external_ref: Option<String>,
    /// Where its legs are in the journal.
    pub legs: Vec<usize>,
}

#[verifier::ext_equal]
pub struct NewTransactionV {
    pub date: int,
    pub payee: Option<Seq<char>>,
    pub narration: Seq<char>,
    pub source: Source,
    pub external_ref: Option<Seq<char>>,
    pub legs: Seq<int>,
}

pub open spec fn places(v: Seq<usize>) -> Seq<int> {
    v.map_values(|i: usize| i as int)
}

impl View for NewTransaction {
    type V = NewTransactionV;

    open spec fn view(&self) -> NewTransactionV {
        NewTransactionV {
            date: self.date@,
            payee: text::opt(self.payee),
            narration: self.narration@,
            source: self.source,
            external_ref: text::opt(self.external_ref),
            legs: places(self.legs@),
        }
    }
}

pub open spec fn transaction_views(v: Seq<NewTransaction>) -> Seq<NewTransactionV> {
    v.map_values(|t: NewTransaction| t@)
}

/// The transaction of a group: what its first leg says of it, and its legs.
pub open spec fn transaction_of(postings: Seq<EntryV>, g: u64) -> NewTransactionV {
    let legs = legs_of(postings, g);
    let header = postings[legs[0]];
    NewTransactionV {
        date: header.date,
        payee: header.payee,
        narration: header.narration,
        source: header.source,
        external_ref: header.external_ref,
        legs,
    }
}

/// The transactions of the groups.
pub open spec fn transactions_of(postings: Seq<EntryV>, gs: Seq<(KeyV, u64)>) -> Result<
    Seq<NewTransactionV>,
    Seq<char>,
>
    decreases gs.len(),
{
    if gs.len() == 0 {
        Ok(Seq::empty())
    } else {
        match transactions_of(postings, gs.drop_last()) {
            Err(e) => Err(e),
            Ok(rest) => match level(postings, gs.last().1) {
                Err(e) => Err(e),
                Ok(()) => Ok(rest.push(transaction_of(postings, gs.last().1))),
            },
        }
    }
}

/// What to write of a journal.
#[derive(Debug)]
pub struct Loading {
    pub accounts: Vec<NewAccount>,
    pub transactions: Vec<NewTransaction>,
}

#[verifier::ext_equal]
pub struct LoadingV {
    pub accounts: Seq<NewAccountV>,
    pub transactions: Seq<NewTransactionV>,
}

impl View for Loading {
    type V = LoadingV;

    open spec fn view(&self) -> LoadingV {
        LoadingV {
            accounts: account_views(self.accounts@),
            transactions: transaction_views(self.transactions@),
        }
    }
}

/// What to write of a journal's postings.
pub open spec fn loading(postings: Seq<EntryV>) -> Result<LoadingV, Seq<char>> {
    match rooted(postings) {
        Err(e) => Err(e),
        Ok(()) => match accounts_at(postings, text::sorted_set(all_levels(postings))) {
            Err(e) => Err(e),
            Ok(accounts) => match transactions_of(postings, groups(postings)) {
                Err(e) => Err(e),
                Ok(transactions) => Ok(LoadingV { accounts, transactions }),
            },
        },
    }
}

proof fn refused_roots_stay(postings: Seq<EntryV>, n: int)
    requires
        0 <= n <= postings.len(),
        rooted(postings.take(n)) is Err,
    ensures
        rooted(postings) == rooted(postings.take(n)),
    decreases postings.len() - n,
{
    if n < postings.len() {
        assert(postings.take(n + 1).drop_last() =~= postings.take(n));
        refused_roots_stay(postings, n + 1);
    } else {
        assert(postings.take(n) =~= postings);
    }
}

proof fn refused_accounts_stay(postings: Seq<EntryV>, paths: Seq<Seq<char>>, n: int)
    requires
        0 <= n <= paths.len(),
        accounts_at(postings, paths.take(n)) is Err,
    ensures
        accounts_at(postings, paths) == accounts_at(postings, paths.take(n)),
    decreases paths.len() - n,
{
    if n < paths.len() {
        assert(paths.take(n + 1).drop_last() =~= paths.take(n));
        refused_accounts_stay(postings, paths, n + 1);
    } else {
        assert(paths.take(n) =~= paths);
    }
}

proof fn refused_groups_stay(postings: Seq<EntryV>, gs: Seq<(KeyV, u64)>, n: int)
    requires
        0 <= n <= gs.len(),
        transactions_of(postings, gs.take(n)) is Err,
    ensures
        transactions_of(postings, gs) == transactions_of(postings, gs.take(n)),
    decreases gs.len() - n,
{
    if n < gs.len() {
        assert(gs.take(n + 1).drop_last() =~= gs.take(n));
        refused_groups_stay(postings, gs, n + 1);
    } else {
        assert(gs.take(n) =~= gs);
    }
}

proof fn groups_have_legs(postings: Seq<EntryV>)
    ensures
        forall|i: int|
            0 <= i < groups(postings).len() ==> legs_of(
                postings,
                (#[trigger] groups(postings)[i]).1,
            ).len() > 0,
    decreases postings.len(),
{
    if postings.len() > 0 {
        let shorter = postings.drop_last();
        let g = postings.last().group;
        groups_have_legs(shorter);
        let p = |k: KeyV, v: u64| legs_of(postings, v).len() > 0;
        assert forall|i: int| 0 <= i < groups(shorter).len() implies p(
            (#[trigger] groups(shorter)[i]).0,
            groups(shorter)[i].1,
        ) by {
            assert(legs_of(shorter, groups(shorter)[i].1).len() > 0);
        }
        keyed::put_keeps(groups(shorter), group_key(g), g, p);
        assert forall|i: int| 0 <= i < groups(postings).len() implies legs_of(
            postings,
            (#[trigger] groups(postings)[i]).1,
        ).len() > 0 by {
            assert(p(groups(postings)[i].0, groups(postings)[i].1));
        }
    }
}

proof fn legs_are_places(postings: Seq<EntryV>, g: u64)
    ensures
        forall|i: int|
            0 <= i < legs_of(postings, g).len() ==> 0 <= #[trigger] legs_of(postings, g)[i]
                < postings.len(),
    decreases postings.len(),
{
    if postings.len() > 0 {
        let rest = legs_of(postings.drop_last(), g);
        let all = legs_of(postings, g);
        legs_are_places(postings.drop_last(), g);
        assert forall|i: int| 0 <= i < all.len() implies 0 <= #[trigger] all[i] < postings.len() by {
            if i < rest.len() {
                assert(all[i] == rest[i]);
            }
        }
    }
}

fn has_placeholder(postings: &Vec<Posting>, path: &str) -> (r: bool)
    ensures
        r == placeholder_at(journal::entry_views(postings@), path@),
{
    let ghost all = journal::entry_views(postings@);
    let mut i: usize = 0;
    while i < postings.len()
        invariant
            i <= postings@.len(),
            all == journal::entry_views(postings@),
            forall|k: int|
                0 <= k < i ==> !((#[trigger] all[k]).account == path@ && is_placeholder(all[k])),
        decreases postings@.len() - i,
    {
        let p = &postings[i];
        assert(all[i as int] == p@);
        if text::same_text(p.account.as_str(), path) {
            if let Some(tags) = &p.tags {
                if text::contains(tags.as_str(), journal::PLACEHOLDER_TAG) {
                    return true;
                }
            }
        }
        i = i + 1;
    }
    false
}

/// The paths to create accounts at.
fn paths_of(postings: &Vec<Posting>) -> (r: Vec<String>)
    ensures
        text::texts(r@) == text::sorted_set(all_levels(journal::entry_views(postings@))),
{
    let ghost all = journal::entry_views(postings@);
    let mut out: Vec<String> = Vec::new();
    let mut i: usize = 0;
    assert(text::texts(out@) =~= Seq::empty());
    while i < postings.len()
        invariant
            i <= postings@.len(),
            all == journal::entry_views(postings@),
            text::texts(out@) == text::sorted_set(all_levels(all.take(i as int))),
        decreases postings@.len() - i,
    {
        assert(all[i as int] == postings@[i as int]@);
        assert(all.take(i as int + 1).drop_last() =~= all.take(i as int));
        let levels = accounts::levels_of(postings[i].account.as_str());
        let ghost before = all_levels(all.take(i as int));
        let ghost more = text::texts(levels@);
        let mut k: usize = 0;
        assert(before + more.take(0) =~= before);
        while k < levels.len()
            invariant
                k <= levels@.len(),
                more == text::texts(levels@),
                text::texts(out@) == text::sorted_set(before + more.take(k as int)),
            decreases levels@.len() - k,
        {
            assert(more[k as int] == levels@[k as int]@);
            let ghost next = before + more.take(k as int + 1);
            assert(next.drop_last() =~= before + more.take(k as int));
            text::add_key(&mut out, levels[k].as_str());
            k = k + 1;
        }
        assert(more.take(k as int) =~= more);
        i = i + 1;
    }
    assert(all.take(i as int) =~= all);
    out
}

fn accounts_of(postings: &Vec<Posting>) -> (r: Result<Vec<NewAccount>, Refusal>)
    ensures
        match r {
            Ok(v) => accounts_at(
                journal::entry_views(postings@),
                text::sorted_set(all_levels(journal::entry_views(postings@))),
            ) == Ok::<Seq<NewAccountV>, Seq<char>>(account_views(v@)),
            Err(e) => accounts_at(
                journal::entry_views(postings@),
                text::sorted_set(all_levels(journal::entry_views(postings@))),
            ) == Err::<Seq<NewAccountV>, Seq<char>>(e@),
        },
{
    let ghost all = journal::entry_views(postings@);
    let paths = paths_of(postings);
    let ghost names = text::texts(paths@);
    let mut out: Vec<NewAccount> = Vec::new();
    let mut i: usize = 0;
    assert(account_views(out@) =~= Seq::empty());
    while i < paths.len()
        invariant
            i <= paths@.len(),
            all == journal::entry_views(postings@),
            names == text::texts(paths@),
            names == text::sorted_set(all_levels(all)),
            accounts_at(all, names.take(i as int)) == Ok::<Seq<NewAccountV>, Seq<char>>(
                account_views(out@),
            ),
        decreases paths@.len() - i,
    {
        let ghost before = out@;
        assert(names[i as int] == paths@[i as int]@);
        assert(names.take(i as int + 1).drop_last() =~= names.take(i as int));
        match schema_type(paths[i].as_str()) {
            Err(e) => {
                proof {
                    refused_accounts_stay(all, names, i as int + 1);
                }
                return Err(e);
            },
            Ok(account_type) => {
                let a = NewAccount {
                    path: text::copy(paths[i].as_str()),
                    account_type,
                    placeholder: has_placeholder(postings, paths[i].as_str()),
                };
                out.push(a);
                assert(account_views(out@) =~= account_views(before).push(a@));
            },
        }
        i = i + 1;
    }
    assert(names.take(i as int) =~= names);
    Ok(out)
}

fn groups_of(postings: &Vec<Posting>) -> (r: Vec<(Key, u64)>)
    ensures
        keyed::entries(r@) == groups(journal::entry_views(postings@)),
{
    let ghost all = journal::entry_views(postings@);
    let mut out: Vec<(Key, u64)> = Vec::new();
    let mut i: usize = 0;
    assert(keyed::entries(out@) =~= Seq::empty());
    while i < postings.len()
        invariant
            i <= postings@.len(),
            all == journal::entry_views(postings@),
            keyed::entries(out@) == groups(all.take(i as int)),
        decreases postings@.len() - i,
    {
        assert(all[i as int] == postings@[i as int]@);
        assert(all.take(i as int + 1).drop_last() =~= all.take(i as int));
        let g = postings[i].group;
        let none = String::new();
        assert(none@ =~= Seq::empty());
        let key = Key {
            text: none,
            numbers: ((g / 0x1_0000_0000) as i64, (g % 0x1_0000_0000) as i64, 0, 0),
        };
        keyed::set(&mut out, key, g);
        i = i + 1;
    }
    assert(all.take(i as int) =~= all);
    out
}

fn transaction(postings: &Vec<Posting>, g: u64) -> (r: Result<NewTransaction, Refusal>)
    requires
        legs_of(journal::entry_views(postings@), g).len() > 0,
    ensures
        match r {
            Ok(t) => level(journal::entry_views(postings@), g) == Ok::<(), Seq<char>>(()) && t@
                == transaction_of(journal::entry_views(postings@), g),
            Err(e) => level(journal::entry_views(postings@), g) == Err::<(), Seq<char>>(e@),
        },
{
    let ghost all = journal::entry_views(postings@);
    let ghost whole = legs_of(all, g);
    let mut legs: Vec<usize> = Vec::new();
    let mut i: usize = 0;
    assert(places(legs@) =~= Seq::empty());
    while i < postings.len()
        invariant
            i <= postings@.len(),
            all == journal::entry_views(postings@),
            places(legs@) == legs_of(all.take(i as int), g),
        decreases postings@.len() - i,
    {
        let ghost before = legs@;
        assert(all[i as int] == postings@[i as int]@);
        assert(all.take(i as int + 1).drop_last() =~= all.take(i as int));
        if postings[i].group == g {
            legs.push(i);
            assert(places(legs@) =~= places(before).push(i as int));
        }
        i = i + 1;
    }
    assert(all.take(i as int) =~= all);
    proof {
        legs_are_places(all, g);
    }
    let ghost amounts = amounts_at(all, whole);
    let mut t = Tally::new();
    let mut k: usize = 0;
    assert(amounts.take(0) =~= Seq::empty());
    while k < legs.len()
        invariant
            k <= legs@.len(),
            all == journal::entry_views(postings@),
            whole == legs_of(all, g),
            places(legs@) == whole,
            amounts == amounts_at(all, whole),
            forall|n: int| 0 <= n < whole.len() ==> 0 <= #[trigger] whole[n] < all.len(),
            sums::tally(amounts.take(k as int)) == Some(t@),
        decreases legs@.len() - k,
    {
        assert(whole[k as int] == legs@[k as int]);
        let p = &postings[legs[k]];
        assert(all[whole[k as int]] == p@);
        assert(amounts[k as int] == (p.amount@, p.currency));
        assert(amounts.take(k as int + 1).drop_last() =~= amounts.take(k as int));
        if !t.add_amount(p.currency, &p.amount) {
            proof {
                sums::out_of_range_stays(amounts, k as int + 1);
            }
            return Err(Refusal::out_of_range());
        }
        k = k + 1;
    }
    assert(amounts.take(k as int) =~= amounts);
    if let Some(c) = t.first_left() {
        let mut out = text::copy("journal transaction group ");
        out.append(text::number64(g).as_str());
        out.append(" does not balance: ");
        out.append(t.of(c).text().as_str());
        out.append(" ");
        out.append(c.text().as_str());
        out.append(" left over");
        return Err(Refusal { message: out });
    }
    assert(whole[0] == legs@[0]);
    let header = &postings[legs[0]];
    assert(all[whole[0]] == header@);
    let r = NewTransaction {
        date: header.date,
        payee: journal::copy_opt(&header.payee),
        narration: text::copy(header.narration.as_str()),
        source: header.source,
        external_ref: journal::copy_opt(&header.external_ref),
        legs,
    };
    assert(r@ =~= transaction_of(all, g));
    Ok(r)
}

/// What to write of a journal's postings.
pub fn plan(postings: &Vec<Posting>) -> (r: Result<Loading, Refusal>)
    ensures
        match r {
            Ok(l) => loading(journal::entry_views(postings@)) == Ok::<LoadingV, Seq<char>>(l@),
            Err(e) => loading(journal::entry_views(postings@)) == Err::<LoadingV, Seq<char>>(e@),
        },
{
    let ghost all = journal::entry_views(postings@);
    let mut i: usize = 0;
    while i < postings.len()
        invariant
            i <= postings@.len(),
            all == journal::entry_views(postings@),
            rooted(all.take(i as int)) == Ok::<(), Seq<char>>(()),
        decreases postings@.len() - i,
    {
        assert(all[i as int] == postings@[i as int]@);
        assert(all.take(i as int + 1).drop_last() =~= all.take(i as int));
        if let Err(e) = schema_type(postings[i].account.as_str()) {
            proof {
                refused_roots_stay(all, i as int + 1);
            }
            return Err(e);
        }
        i = i + 1;
    }
    assert(all.take(i as int) =~= all);
    let accounts = accounts_of(postings)?;
    let groups = groups_of(postings);
    let ghost gs = keyed::entries(groups@);
    proof {
        groups_have_legs(all);
    }
    let mut transactions: Vec<NewTransaction> = Vec::new();
    let mut k: usize = 0;
    assert(transaction_views(transactions@) =~= Seq::empty());
    while k < groups.len()
        invariant
            k <= groups@.len(),
            all == journal::entry_views(postings@),
            gs == keyed::entries(groups@),
            gs == self::groups(all),
            rooted(all) == Ok::<(), Seq<char>>(()),
            accounts_at(all, text::sorted_set(all_levels(all))) == Ok::<
                Seq<NewAccountV>,
                Seq<char>,
            >(account_views(accounts@)),
            forall|n: int| 0 <= n < gs.len() ==> legs_of(all, (#[trigger] gs[n]).1).len() > 0,
            transactions_of(all, gs.take(k as int)) == Ok::<Seq<NewTransactionV>, Seq<char>>(
                transaction_views(transactions@),
            ),
        decreases groups@.len() - k,
    {
        let ghost before = transactions@;
        assert(gs[k as int].1 == groups@[k as int].1);
        assert(gs.take(k as int + 1).drop_last() =~= gs.take(k as int));
        match transaction(postings, groups[k].1) {
            Ok(t) => {
                transactions.push(t);
                assert(transaction_views(transactions@) =~= transaction_views(before).push(t@));
            },
            Err(e) => {
                proof {
                    refused_groups_stay(all, gs, k as int + 1);
                }
                return Err(e);
            },
        }
        k = k + 1;
    }
    assert(gs.take(k as int) =~= gs);
    Ok(Loading { accounts, transactions })
}

/// Every transaction of an accepted journal balances in each currency.
pub proof fn loaded_transactions_balance(postings: Seq<EntryV>, i: int, c: Currency)
    requires
        loading(postings) is Ok,
        0 <= i < groups(postings).len(),
    ensures
        amount::total(
            sums::amounts_in(
                amounts_at(postings, legs_of(postings, groups(postings)[i].1)),
                c,
            ),
        ) matches Some(t) && t.magnitude == 0,
{
    let gs = groups(postings);
    level_at(postings, gs, i);
    sums::sums_are_totals(amounts_at(postings, legs_of(postings, gs[i].1)), c);
}

proof fn level_at(postings: Seq<EntryV>, gs: Seq<(KeyV, u64)>, i: int)
    requires
        transactions_of(postings, gs) is Ok,
        0 <= i < gs.len(),
    ensures
        level(postings, gs[i].1) is Ok,
    decreases gs.len(),
{
    if i < gs.len() - 1 {
        assert(gs.drop_last()[i] == gs[i]);
        level_at(postings, gs.drop_last(), i);
    }
}

/// What the loader wrote.
#[derive(Debug)]
pub struct Report {
    pub accounts: usize,
    pub transactions: usize,
    pub postings: usize,
    pub check: CheckReport,
}

impl Report {
    pub fn text(&self) -> (r: String)
        requires
            check::printable(self.check@),
        ensures
            r@ == "loaded journal into SQLite:\n  "@ + text::digits(self.accounts as nat)
                + " accounts\n  "@ + text::digits(self.transactions as nat) + " transactions, "@
                + text::digits(self.postings as nat) + " postings\n"@ + check::report_text(
                self.check@,
            ),
    {
        let mut out = text::copy("loaded journal into SQLite:\n  ");
        out.append(text::number(self.accounts).as_str());
        out.append(" accounts\n  ");
        out.append(text::number(self.transactions).as_str());
        out.append(" transactions, ");
        out.append(text::number(self.postings).as_str());
        out.append(" postings\n");
        out.append(self.check.text().as_str());
        out
    }
}

/// Refuses a database that already holds history — the load is one-time.
pub fn guard_empty(count: i64) -> (r: Result<(), Refusal>)
    ensures
        match r {
            Ok(()) => count <= 0,
            Err(e) => count > 0 && e@ == "database already contains "@ + text::signed_digits(
                count as int,
            )
                + " transactions; the journal load is one-time — point --database-url at a fresh file"@,
        },
{
    if count > 0 {
        let mut out = text::copy("database already contains ");
        out.append(text::signed_number(count).as_str());
        out.append(
            " transactions; the journal load is one-time — point --database-url at a fresh file",
        );
        Err(Refusal { message: out })
    } else {
        Ok(())
    }
}

/// The schema type of an account is that of its root.
pub proof fn an_account_has_the_type_of_its_root(path: Seq<char>)
    ensures
        match type_at(path) {
            Ok(AccountType::Asset) => accounts::within(path, "Assets"@),
            Ok(AccountType::Liability) => accounts::within(path, "Liabilities"@),
            Ok(AccountType::Equity) => accounts::within(path, "Equity"@),
            Ok(AccountType::Income) => accounts::within(path, "Income"@),
            Ok(AccountType::Expense) => accounts::within(path, "Expenses"@),
            Err(_) => !accounts::within(path, "Assets"@) && !accounts::within(
                path,
                "Liabilities"@,
            ) && !accounts::within(path, "Equity"@) && !accounts::within(path, "Income"@)
                && !accounts::within(path, "Expenses"@),
        },
{
}

proof fn legs_are_of_the_group(postings: Seq<EntryV>, g: u64)
    ensures
        ({
            let legs = legs_of(postings, g);
            &&& forall|i: int|
                0 <= i < legs.len() ==> 0 <= (#[trigger] legs[i]) < postings.len()
                    && postings[legs[i]].group == g
            &&& forall|i: int, j: int|
                0 <= i < j < legs.len() ==> #[trigger] legs[i] < #[trigger] legs[j]
            &&& forall|k: int|
                0 <= k < postings.len() && (#[trigger] postings[k]).group == g ==> legs.contains(k)
        }),
    decreases postings.len(),
{
    if postings.len() > 0 {
        let shorter = postings.drop_last();
        legs_are_of_the_group(shorter, g);
        let (before, legs) = (legs_of(shorter, g), legs_of(postings, g));
        assert(forall|i: int| 0 <= i < before.len() ==> legs[i] == #[trigger] before[i]);
        assert forall|i: int| 0 <= i < legs.len() implies 0 <= (#[trigger] legs[i])
            < postings.len() && postings[legs[i]].group == g by {
            if i < before.len() {
                assert(legs[i] == before[i]);
                assert(shorter[before[i]] == postings[before[i]]);
            }
        }
        assert forall|i: int, j: int| 0 <= i < j < legs.len() implies #[trigger] legs[i]
            < #[trigger] legs[j] by {
            assert(legs[i] == before[i]);
            if j < before.len() {
                assert(legs[j] == before[j]);
            }
        }
        assert forall|k: int|
            0 <= k < postings.len() && (#[trigger] postings[k]).group
                == g implies legs.contains(k) by {
            if k < shorter.len() {
                assert(shorter[k] == postings[k]);
                let i = choose|i: int| 0 <= i < before.len() && before[i] == k;
                assert(legs[i] == k);
            } else {
                assert(legs[before.len() as int] == k);
            }
        }
    }
}

proof fn keys_tell_groups_apart(a: u64, b: u64)
    requires
        group_key(a) == group_key(b),
    ensures
        a == b,
{
    assert(a as int == (a as int / 0x1_0000_0000) * 0x1_0000_0000 + a as int % 0x1_0000_0000);
    assert(b as int == (b as int / 0x1_0000_0000) * 0x1_0000_0000 + b as int % 0x1_0000_0000);
    assert(group_key(a).numbers == group_key(b).numbers);
}

proof fn groups_are_those_of_the_postings(postings: Seq<EntryV>)
    ensures
        keyed::in_order(groups(postings)),
        forall|i: int|
            0 <= i < postings.len() ==> keyed::get(
                groups(postings),
                group_key((#[trigger] postings[i]).group),
            ) == Some(postings[i].group),
    decreases postings.len(),
{
    if postings.len() > 0 {
        let shorter = postings.drop_last();
        groups_are_those_of_the_postings(shorter);
        let g = postings.last().group;
        keyed::put_keeps_order(groups(shorter), group_key(g), g);
        assert forall|i: int| 0 <= i < postings.len() implies keyed::get(
            groups(postings),
            group_key((#[trigger] postings[i]).group),
        ) == Some(postings[i].group) by {
            keyed::get_after_put(groups(shorter), group_key(g), g, group_key(postings[i].group));
            if group_key(postings[i].group) == group_key(g) {
                keys_tell_groups_apart(postings[i].group, g);
            }
            if i < shorter.len() {
                assert(shorter[i] == postings[i]);
            }
        }
    }
}

proof fn groups_come_from_postings(postings: Seq<EntryV>)
    ensures
        forall|n: int|
            0 <= n < groups(postings).len() ==> (#[trigger] groups(postings)[n]).0 == group_key(
                groups(postings)[n].1,
            ) && exists|k: int|
                0 <= k < postings.len() && (#[trigger] postings[k]).group
                    == groups(postings)[n].1,
    decreases postings.len(),
{
    if postings.len() > 0 {
        let shorter = postings.drop_last();
        groups_come_from_postings(shorter);
        let g = postings.last().group;
        let before = groups(shorter);
        let now = groups(postings);
        let p = |key: KeyV, v: u64|
            key == group_key(v) && exists|k: int|
                0 <= k < postings.len() && (#[trigger] postings[k]).group == v;
        assert(postings[postings.len() - 1].group == g);
        assert forall|n: int| 0 <= n < before.len() implies p((#[trigger] before[n]).0, before[n].1) by {
            let k = choose|k: int|
                0 <= k < shorter.len() && (#[trigger] shorter[k]).group == before[n].1;
            assert(postings[k] == shorter[k]);
        }
        keyed::put_keeps(before, group_key(g), g, p);
        assert forall|n: int| 0 <= n < now.len() implies (#[trigger] now[n]).0 == group_key(
            now[n].1,
        ) && exists|k: int|
            0 <= k < postings.len() && (#[trigger] postings[k]).group == now[n].1 by {
            assert(p(now[n].0, now[n].1));
        }
    }
}

proof fn each_group_is_a_transaction(postings: Seq<EntryV>, gs: Seq<(KeyV, u64)>, n: int)
    requires
        transactions_of(postings, gs) is Ok,
        0 <= n < gs.len(),
    ensures
        transactions_of(postings, gs)->Ok_0.len() == gs.len(),
        transactions_of(postings, gs)->Ok_0[n] == transaction_of(postings, gs[n].1),
    decreases gs.len(),
{
    reveal_with_fuel(transactions_of, 2);
    if n < gs.len() - 1 {
        each_group_is_a_transaction(postings, gs.drop_last(), n);
    } else if gs.len() > 1 {
        each_group_is_a_transaction(postings, gs.drop_last(), 0);
    }
}

/// Every posting of a journal is a leg of one transaction, that of its group.
pub proof fn every_posting_is_loaded(postings: Seq<EntryV>, k: int) -> (n: int)
    requires
        loading(postings) is Ok,
        0 <= k < postings.len(),
    ensures
        ({
            let ts = loading(postings)->Ok_0.transactions;
            &&& 0 <= n < ts.len()
            &&& ts[n].legs.contains(k)
            &&& forall|m: int| 0 <= m < ts.len() && (#[trigger] ts[m]).legs.contains(k) ==> m == n
        }),
{
    let gs = groups(postings);
    let ts = loading(postings)->Ok_0.transactions;
    let g = postings[k].group;
    groups_are_those_of_the_postings(postings);
    groups_come_from_postings(postings);
    keyed::slot_bounds(gs, group_key(g), 0);
    let n = keyed::slot(gs, group_key(g), 0);
    assert(keyed::get(gs, group_key(postings[k].group)) == Some(g));
    each_group_is_a_transaction(postings, gs, n);
    legs_are_of_the_group(postings, g);
    assert forall|m: int| 0 <= m < ts.len() && (#[trigger] ts[m]).legs.contains(k) implies m
        == n by {
        each_group_is_a_transaction(postings, gs, m);
        legs_are_of_the_group(postings, gs[m].1);
        let i = choose|i: int| 0 <= i < ts[m].legs.len() && ts[m].legs[i] == k;
        assert(postings[ts[m].legs[i]].group == gs[m].1);
        assert(gs[m].0 == group_key(g));
        sort::keys_in_strict_order(gs[m].0, gs[n].0, gs[m].0);
        if m < n {
            assert(sort::key_before(gs[m].0, gs[n].0));
        } else if n < m {
            assert(sort::key_before(gs[n].0, gs[m].0));
        }
    }
    n
}

/// A transaction of a journal says what its first leg says of it, and its legs
/// are of one group, in the order they stand.
pub proof fn a_loaded_transaction_says_what_its_legs_say(postings: Seq<EntryV>, n: int)
    requires
        loading(postings) is Ok,
        0 <= n < loading(postings)->Ok_0.transactions.len(),
    ensures
        ({
            let t = loading(postings)->Ok_0.transactions[n];
            let first = postings[t.legs[0]];
            &&& t.legs.len() > 0
            &&& forall|i: int| 0 <= i < t.legs.len() ==> 0 <= (#[trigger] t.legs[i]) < postings.len()
            &&& forall|i: int|
                0 <= i < t.legs.len() ==> postings[#[trigger] t.legs[i]].group == first.group
            &&& forall|i: int, j: int|
                0 <= i < j < t.legs.len() ==> #[trigger] t.legs[i] < #[trigger] t.legs[j]
            &&& t.date == first.date
            &&& t.payee == first.payee
            &&& t.narration == first.narration
            &&& t.source == first.source
            &&& t.external_ref == first.external_ref
        }),
{
    let gs = groups(postings);
    if gs.len() == 0 {
        assert(transactions_of(postings, gs)->Ok_0.len() == 0);
    } else {
        each_group_is_a_transaction(postings, gs, 0);
    }
    each_group_is_a_transaction(postings, gs, n);
    groups_come_from_postings(postings);
    legs_are_of_the_group(postings, gs[n].1);
    let k = choose|k: int| 0 <= k < postings.len() && (#[trigger] postings[k]).group == gs[n].1;
    assert(legs_of(postings, gs[n].1).contains(k));
}

proof fn levels_are_listed(postings: Seq<EntryV>, k: int, j: int)
    requires
        0 <= k < postings.len(),
        0 <= j < accounts::levels(postings[k].account).len(),
    ensures
        all_levels(postings).contains(accounts::levels(postings[k].account)[j]),
    decreases postings.len(),
{
    let before = all_levels(postings.drop_last());
    let now = all_levels(postings);
    let s = accounts::levels(postings[k].account)[j];
    if k < postings.len() - 1 {
        assert(postings.drop_last()[k] == postings[k]);
        levels_are_listed(postings.drop_last(), k, j);
        let i = choose|i: int| 0 <= i < before.len() && before[i] == s;
        assert(now[i] == s);
    } else {
        assert(now[before.len() + j] == s);
    }
}

proof fn each_path_is_an_account(postings: Seq<EntryV>, paths: Seq<Seq<char>>, i: int)
    requires
        accounts_at(postings, paths) is Ok,
        0 <= i < paths.len(),
    ensures
        accounts_at(postings, paths)->Ok_0.len() == paths.len(),
        accounts_at(postings, paths)->Ok_0[i].path == paths[i],
        type_at(paths[i]) == Ok::<AccountType, Seq<char>>(
            accounts_at(postings, paths)->Ok_0[i].account_type,
        ),
        accounts_at(postings, paths)->Ok_0[i].placeholder == placeholder_at(postings, paths[i]),
    decreases paths.len(),
{
    reveal_with_fuel(accounts_at, 2);
    if i < paths.len() - 1 {
        each_path_is_an_account(postings, paths.drop_last(), i);
    } else if paths.len() > 1 {
        each_path_is_an_account(postings, paths.drop_last(), 0);
    }
}

/// The account of every posting, and each one above it, is created with the
/// type of its root; a placeholder where a leg on it carries the reserved tag.
pub proof fn every_level_is_created(postings: Seq<EntryV>, k: int, j: int) -> (i: int)
    requires
        loading(postings) is Ok,
        0 <= k < postings.len(),
        0 <= j < accounts::levels(postings[k].account).len(),
    ensures
        ({
            let all = loading(postings)->Ok_0.accounts;
            let path = accounts::levels(postings[k].account)[j];
            &&& 0 <= i < all.len()
            &&& all[i].path == path
            &&& type_at(path) == Ok::<AccountType, Seq<char>>(all[i].account_type)
            &&& all[i].placeholder <==> exists|n: int|
                0 <= n < postings.len() && (#[trigger] postings[n]).account == path && (
                postings[n].tags matches Some(tags) && text::holds(
                    tags,
                    journal::PLACEHOLDER_TAG@,
                ))
        }),
{
    let paths = text::sorted_set(all_levels(postings));
    let path = accounts::levels(postings[k].account)[j];
    levels_are_listed(postings, k, j);
    text::a_set_holds_its_list(all_levels(postings), path);
    let i = choose|i: int| 0 <= i < paths.len() && paths[i] == path;
    each_path_is_an_account(postings, paths, i);
    i
}

} // verus!
