//! Closing and reopening accounts.

use vstd::prelude::*;

use crate::accounts;
use crate::amount::Dec;
use crate::amount;
use crate::amount::Amount;
use crate::currency;
use crate::currency::Currency;
use crate::refusal;
use crate::refusal::Refusal;
use crate::text;

use super::events;
use super::query;
use super::query::AccountType;
use super::review;
use super::review::{AccountRow, AccountRowV};
use super::sums;
use super::sums::Tally;

verus! {

/// A posting and the path of its account, as the database holds them.
pub struct PostingRow {
    pub path: String,
    pub amount: String,
    pub currency: String,
}

pub struct PostingRowV {
    pub path: Seq<char>,
    pub amount: Seq<char>,
    pub currency: Seq<char>,
}

impl View for PostingRow {
    type V = PostingRowV;

    open spec fn view(&self) -> PostingRowV {
        PostingRowV { path: self.path@, amount: self.amount@, currency: self.currency@ }
    }
}

pub open spec fn row_views(v: Seq<PostingRow>) -> Seq<PostingRowV> {
    v.map_values(|r: PostingRow| r@)
}

/// Is `path` under the account `root`, not the account itself?
pub open spec fn below(path: Seq<char>, root: Seq<char>) -> bool {
    text::starts(path, root.push(':'))
}

/// How many of the accounts below `path` are open.
pub open spec fn open_below(rows: Seq<AccountRowV>, path: Seq<char>) -> nat
    decreases rows.len(),
{
    if rows.len() == 0 {
        0
    } else {
        let rest = open_below(rows.drop_last(), path);
        if !rows.last().closed && below(rows.last().path, path) {
            rest + 1
        } else {
            rest
        }
    }
}

/// The sums of what was posted to `path` and below it.
pub open spec fn holdings(rows: Seq<PostingRowV>, path: Seq<char>) -> Result<
    sums::TallyV,
    Seq<char>,
>
    decreases rows.len(),
{
    if rows.len() == 0 {
        Ok(sums::nothing())
    } else {
        match holdings(rows.drop_last(), path) {
            Err(e) => Err(e),
            Ok(t) => {
                let r = rows.last();
                if !accounts::within(r.path, path) {
                    Ok(t)
                } else {
                    match currency::of_code(r.currency) {
                        None => Err(events::misread("currency"@, r.currency)),
                        Some(c) => match amount::spelled(r.amount) {
                            None => Err(events::misread("amount"@, r.amount)),
                            Some(a) => match sums::added(t, c, a) {
                                None => Err(refusal::out_of_range()),
                                Some(s) => Ok(s),
                            },
                        },
                    }
                }
            },
        }
    }
}

/// The id of the account to close. A closed account holding money would drop
/// it from every picker while it still counts in the totals, so it must hold
/// nothing and have no open account under it.
pub open spec fn closing(
    rows: Seq<AccountRowV>,
    postings: Seq<PostingRowV>,
    path: Seq<char>,
) -> Result<int, Seq<char>> {
    match review::row_at(rows, path, 0) {
        None => Err("查無帳戶："@ + path),
        Some(i) => if rows[i].closed {
            Err("帳戶已經結清："@ + path)
        } else {
            match query::type_of(rows[i].acct_type) {
                None => Err(events::misread("account type"@, rows[i].acct_type)),
                Some(t) => if t == AccountType::Equity || !path.contains(':') {
                    Err("這個帳戶不能結清："@ + path)
                } else if open_below(rows, path) > 0 {
                    Err("底下還有 "@ + text::digits(open_below(rows, path)) + " 個帳戶沒結清"@)
                } else {
                    match holdings(postings, path) {
                        Err(e) => Err(e),
                        Ok(t) => if sums::is_level(t) {
                            Ok(rows[i].id)
                        } else {
                            Err("餘額不是 0，不能結清："@ + text::joined(sums::left(t), "、"@))
                        },
                    }
                },
            }
        },
    }
}

/// Where the account `path` stands.
fn find(rows: &Vec<AccountRow>, path: &str) -> (r: Result<usize, Refusal>)
    ensures
        match r {
            Ok(i) => i < rows@.len() && review::row_at(review::account_views(rows@), path@, 0)
                == Some(i as int),
            Err(e) => review::row_at(review::account_views(rows@), path@, 0) is None && e@
                == "查無帳戶："@ + path@,
        },
{
    let ghost all = review::account_views(rows@);
    let mut i: usize = 0;
    while i < rows.len()
        invariant
            i <= rows@.len(),
            all == review::account_views(rows@),
            review::row_at(all, path@, 0) == review::row_at(all, path@, i as int),
        decreases rows@.len() - i,
    {
        assert(all[i as int] == rows@[i as int]@);
        if text::same_text(rows[i].path.as_str(), path) {
            return Ok(i);
        }
        i = i + 1;
    }
    Err(says("查無帳戶：", path))
}

fn says(message: &str, s: &str) -> (r: Refusal)
    ensures
        r@ == message@ + s@,
{
    let mut out = text::copy(message);
    out.append(s);
    Refusal { message: out }
}

fn is_below(path: &str, root: &str) -> (r: bool)
    ensures
        r == below(path@, root@),
{
    let mut prefix = text::copy(root);
    prefix.push(':');
    text::starts_with(path, prefix.as_str())
}

fn count_open_below(rows: &Vec<AccountRow>, path: &str) -> (r: usize)
    ensures
        r == open_below(review::account_views(rows@), path@),
{
    let ghost all = review::account_views(rows@);
    let mut n: usize = 0;
    let mut i: usize = 0;
    while i < rows.len()
        invariant
            i <= rows@.len(),
            n <= i,
            all == review::account_views(rows@),
            n == open_below(all.take(i as int), path@),
        decreases rows@.len() - i,
    {
        assert(all[i as int] == rows@[i as int]@);
        assert(all.take(i as int + 1).drop_last() =~= all.take(i as int));
        if !rows[i].closed && is_below(rows[i].path.as_str(), path) {
            n = n + 1;
        }
        i = i + 1;
    }
    assert(all.take(i as int) =~= all);
    n
}

proof fn refused_holdings_stay(rows: Seq<PostingRowV>, path: Seq<char>, n: int)
    requires
        0 <= n <= rows.len(),
        holdings(rows.take(n), path) is Err,
    ensures
        holdings(rows, path) == holdings(rows.take(n), path),
    decreases rows.len() - n,
{
    if n < rows.len() {
        assert(rows.take(n + 1).drop_last() =~= rows.take(n));
        refused_holdings_stay(rows, path, n + 1);
    } else {
        assert(rows.take(n) =~= rows);
    }
}

fn holdings_of(rows: &Vec<PostingRow>, path: &str) -> (r: Result<Tally, Refusal>)
    ensures
        match r {
            Ok(t) => holdings(row_views(rows@), path@) == Ok::<sums::TallyV, Seq<char>>(t@),
            Err(e) => holdings(row_views(rows@), path@) == Err::<sums::TallyV, Seq<char>>(e@),
        },
{
    let ghost all = row_views(rows@);
    let mut t = Tally::new();
    let mut i: usize = 0;
    while i < rows.len()
        invariant
            i <= rows@.len(),
            all == row_views(rows@),
            holdings(all.take(i as int), path@) == Ok::<sums::TallyV, Seq<char>>(t@),
        decreases rows@.len() - i,
    {
        let r = &rows[i];
        assert(all[i as int] == r@);
        assert(all.take(i as int + 1).drop_last() =~= all.take(i as int));
        if accounts::in_subtree(r.path.as_str(), path) {
            let step: Result<(), Refusal> = match Currency::parse(r.currency.as_str()) {
                None => Err(events::misreads("currency", r.currency.as_str())),
                Some(c) => match Amount::parse(r.amount.as_str()) {
                    None => Err(events::misreads("amount", r.amount.as_str())),
                    Some(a) => if t.add_amount(c, &a) {
                        Ok(())
                    } else {
                        Err(Refusal::out_of_range())
                    },
                },
            };
            if let Err(e) = step {
                proof {
                    refused_holdings_stay(all, path@, i as int + 1);
                }
                return Err(e);
            }
        }
        i = i + 1;
    }
    assert(all.take(i as int) =~= all);
    Ok(t)
}

fn has_colon(s: &str) -> (r: bool)
    ensures
        r == s@.contains(':'),
{
    let cs = text::chars(s);
    let mut i: usize = 0;
    while i < cs.len()
        invariant
            i <= cs@.len(),
            cs@ == s@,
            forall|k: int| 0 <= k < i ==> cs@[k] != ':',
        decreases cs@.len() - i,
    {
        if cs[i] == ':' {
            assert(s@[i as int] == ':');
            return true;
        }
        i = i + 1;
    }
    false
}

/// The id of the account to close, which must hold nothing and have no open
/// account under it.
pub fn close(rows: &Vec<AccountRow>, postings: &Vec<PostingRow>, path: &str) -> (r: Result<
    i64,
    Refusal,
>)
    ensures
        match r {
            Ok(id) => closing(review::account_views(rows@), row_views(postings@), path@) == Ok::<
                int,
                Seq<char>,
            >(id as int),
            Err(e) => closing(review::account_views(rows@), row_views(postings@), path@) == Err::<
                int,
                Seq<char>,
            >(e@),
        },
{
    let i = find(rows, path)?;
    let row = &rows[i];
    assert(review::account_views(rows@)[i as int] == row@);
    if row.closed {
        return Err(says("帳戶已經結清：", path));
    }
    let account_type = match AccountType::parse(row.acct_type.as_str()) {
        Some(t) => t,
        None => return Err(events::misreads("account type", row.acct_type.as_str())),
    };
    if account_type == AccountType::Equity || !has_colon(path) {
        return Err(says("這個帳戶不能結清：", path));
    }
    let open_children = count_open_below(rows, path);
    if open_children > 0 {
        let mut out = text::copy("底下還有 ");
        out.append(text::number(open_children).as_str());
        out.append(" 個帳戶沒結清");
        return Err(Refusal { message: out });
    }
    let held = holdings_of(postings, path)?.left();
    if held.len() > 0 {
        return Err(says("餘額不是 0，不能結清：", text::join_all(&held, "、").as_str()));
    }
    Ok(row.id)
}

/// The closed accounts among the first `n` levels.
pub open spec fn closed_among(rows: Seq<AccountRowV>, levels: Seq<Seq<char>>) -> Result<
    Seq<int>,
    Seq<char>,
>
    decreases levels.len(),
{
    if levels.len() == 0 {
        Ok(Seq::empty())
    } else {
        match closed_among(rows, levels.drop_last()) {
            Err(e) => Err(e),
            Ok(rest) => match review::row_at(rows, levels.last(), 0) {
                None => Err("查無帳戶："@ + levels.last()),
                Some(i) => if rows[i].closed {
                    Ok(rest.push(rows[i].id))
                } else {
                    Ok(rest)
                },
            },
        }
    }
}

/// The ids of the accounts to reopen: a closed account, and every closed
/// account above it so it shows again.
pub open spec fn reopening(rows: Seq<AccountRowV>, path: Seq<char>) -> Result<
    Seq<int>,
    Seq<char>,
> {
    match review::row_at(rows, path, 0) {
        None => Err("查無帳戶："@ + path),
        Some(i) => if !rows[i].closed {
            Err("帳戶沒有結清："@ + path)
        } else {
            closed_among(rows, accounts::levels(path))
        },
    }
}

proof fn refused_levels_stay(rows: Seq<AccountRowV>, levels: Seq<Seq<char>>, n: int)
    requires
        0 <= n <= levels.len(),
        closed_among(rows, levels.take(n)) is Err,
    ensures
        closed_among(rows, levels) == closed_among(rows, levels.take(n)),
    decreases levels.len() - n,
{
    if n < levels.len() {
        assert(levels.take(n + 1).drop_last() =~= levels.take(n));
        refused_levels_stay(rows, levels, n + 1);
    } else {
        assert(levels.take(n) =~= levels);
    }
}

/// The ids of the accounts to reopen: a closed account, and every closed
/// account above it so it shows again.
pub fn reopen(rows: &Vec<AccountRow>, path: &str) -> (r: Result<Vec<i64>, Refusal>)
    ensures
        match r {
            Ok(ids) => reopening(review::account_views(rows@), path@) == Ok::<
                Seq<int>,
                Seq<char>,
            >(review::ids(ids@)),
            Err(e) => reopening(review::account_views(rows@), path@) == Err::<
                Seq<int>,
                Seq<char>,
            >(e@),
        },
{
    let ghost all = review::account_views(rows@);
    let i = find(rows, path)?;
    assert(all[i as int] == rows@[i as int]@);
    if !rows[i].closed {
        return Err(says("帳戶沒有結清：", path));
    }
    let levels = accounts::levels_of(path);
    let ghost names = text::texts(levels@);
    let mut out: Vec<i64> = Vec::new();
    let mut k: usize = 0;
    assert(review::ids(out@) =~= Seq::empty());
    while k < levels.len()
        invariant
            k <= levels@.len(),
            all == review::account_views(rows@),
            names == text::texts(levels@),
            names == accounts::levels(path@),
            review::row_at(all, path@, 0) matches Some(at) && all[at].closed,
            closed_among(all, names.take(k as int)) == Ok::<Seq<int>, Seq<char>>(
                review::ids(out@),
            ),
        decreases levels@.len() - k,
    {
        let ghost before = out@;
        assert(names[k as int] == levels@[k as int]@);
        assert(names.take(k as int + 1).drop_last() =~= names.take(k as int));
        match find(rows, levels[k].as_str()) {
            Err(e) => {
                proof {
                    refused_levels_stay(all, names, k as int + 1);
                }
                return Err(e);
            },
            Ok(j) => {
                assert(all[j as int] == rows@[j as int]@);
                if rows[j].closed {
                    out.push(rows[j].id);
                    assert(review::ids(out@) =~= review::ids(before).push(
                        rows@[j as int].id as int,
                    ));
                }
            },
        }
        k = k + 1;
    }
    assert(names.take(k as int) =~= names);
    Ok(out)
}

/// What a change of an account's state is recorded as.
pub fn event(closed: bool) -> (r: &'static str)
    ensures
        r@ == (if closed {
            "closed"@
        } else {
            "reopened"@
        }),
{
    if closed {
        "closed"
    } else {
        "reopened"
    }
}

/// The note of a change, without the white space around it.
pub fn note(given: &Option<String>) -> (r: Option<String>)
    ensures
        text::opt(r) == review::tidied(text::opt(*given)),
{
    review::tidy(given)
}

proof fn none_open_below(rows: Seq<AccountRowV>, path: Seq<char>, k: int)
    requires
        open_below(rows, path) == 0,
        0 <= k < rows.len(),
        below(rows[k].path, path),
    ensures
        rows[k].closed,
    decreases rows.len(),
{
    if k < rows.len() - 1 {
        assert(rows.drop_last()[k] == rows[k]);
        none_open_below(rows.drop_last(), path, k);
    }
}

/// An account that may be closed has no open account under it, and what was
/// posted to it and below it comes to nothing in every currency.
pub proof fn a_closed_account_holds_nothing(
    rows: Seq<AccountRowV>,
    postings: Seq<PostingRowV>,
    path: Seq<char>,
)
    requires
        closing(rows, postings, path) is Ok,
    ensures
        forall|k: int|
            0 <= k < rows.len() && below((#[trigger] rows[k]).path, path) ==> rows[k].closed,
        holdings(postings, path) matches Ok(t) && sums::is_level(t),
{
    assert forall|k: int| 0 <= k < rows.len() && below((#[trigger] rows[k]).path, path) implies
        rows[k].closed by {
        none_open_below(rows, path, k);
    }
}

proof fn closed_level_is_listed(rows: Seq<AccountRowV>, levels: Seq<Seq<char>>, n: int)
    requires
        closed_among(rows, levels) is Ok,
        0 <= n < levels.len(),
    ensures
        review::row_at(rows, levels[n], 0) matches Some(i) && (rows[i].closed ==> closed_among(
            rows,
            levels,
        )->Ok_0.contains(rows[i].id)),
    decreases levels.len(),
{
    let shorter = levels.drop_last();
    let before = closed_among(rows, shorter)->Ok_0;
    let all = closed_among(rows, levels)->Ok_0;
    if n == levels.len() - 1 {
        let i = review::row_at(rows, levels[n], 0)->0;
        if rows[i].closed {
            assert(all[before.len() as int] == rows[i].id);
        }
    } else {
        assert(shorter[n] == levels[n]);
        closed_level_is_listed(rows, shorter, n);
        let i = review::row_at(rows, levels[n], 0)->0;
        if rows[i].closed {
            let k = choose|k: int| 0 <= k < before.len() && before[k] == rows[i].id;
            assert(all[k] == before[k]);
        }
    }
}

/// Reopening an account opens every closed account above it too, so that it
/// shows again.
pub proof fn a_reopened_account_shows(rows: Seq<AccountRowV>, path: Seq<char>, n: int)
    requires
        reopening(rows, path) is Ok,
        0 <= n < accounts::levels(path).len(),
    ensures
        review::row_at(rows, accounts::levels(path)[n], 0) matches Some(i) && (rows[i].closed
            ==> reopening(rows, path)->Ok_0.contains(rows[i].id)),
{
    closed_level_is_listed(rows, accounts::levels(path), n);
}

/// The amounts posted to an account and below it in a currency.
pub open spec fn posted(rows: Seq<PostingRowV>, path: Seq<char>, c: Currency) -> Seq<Dec> {
    rows.filter(
        |r: PostingRowV| accounts::within(r.path, path) && currency::of_code(r.currency) == Some(c),
    ).map_values(|r: PostingRowV| amount::spelled(r.amount)->0)
}

/// What an account holds in a currency is the total of what was posted to it
/// and below it in that currency.
pub proof fn holdings_are_what_was_posted(rows: Seq<PostingRowV>, path: Seq<char>, c: Currency)
    requires
        holdings(rows, path) is Ok,
    ensures
        amount::total(posted(rows, path, c)) == Some(
            sums::in_currency(holdings(rows, path)->Ok_0, c),
        ),
    decreases rows.len(),
{
    reveal(Seq::filter);
    let now = posted(rows, path, c);
    if rows.len() == 0 {
        assert(now =~= Seq::empty());
    } else {
        holdings_are_what_was_posted(rows.drop_last(), path, c);
        let before = posted(rows.drop_last(), path, c);
        let r = rows.last();
        if accounts::within(r.path, path) && currency::of_code(r.currency) == Some(c) {
            assert(now =~= before.push(amount::spelled(r.amount)->0));
            assert(now.drop_last() =~= before);
        } else {
            assert(now =~= before);
        }
    }
}

/// What is closed is an open account at the path, of a type but equity and not
/// a root, and what was posted to it and below it totals 0 in each currency.
pub proof fn what_is_closed_is_open_and_empty(
    rows: Seq<AccountRowV>,
    postings: Seq<PostingRowV>,
    path: Seq<char>,
    c: Currency,
)
    requires
        closing(rows, postings, path) is Ok,
    ensures
        exists|i: int|
            0 <= i < rows.len() && (#[trigger] rows[i]).path == path && rows[i].id == closing(
                rows,
                postings,
                path,
            )->Ok_0 && !rows[i].closed && query::type_of(rows[i].acct_type) is Some
                && query::type_of(rows[i].acct_type) != Some(AccountType::Equity),
        path.contains(':'),
        amount::total(posted(postings, path, c)) matches Some(t) && t.magnitude == 0,
{
    holdings_are_what_was_posted(postings, path, c);
    review::row_is_the_first(rows, path, 0);
    let i = review::row_at(rows, path, 0)->0;
    assert(rows[i].path == path);
}

proof fn only_closed_levels_are_listed(
    rows: Seq<AccountRowV>,
    levels: Seq<Seq<char>>,
    k: int,
) -> (n: int)
    requires
        closed_among(rows, levels) is Ok,
        0 <= k < closed_among(rows, levels)->Ok_0.len(),
    ensures
        0 <= n < levels.len(),
        review::row_at(rows, levels[n], 0) matches Some(i) && rows[i].closed && rows[i].id
            == closed_among(rows, levels)->Ok_0[k],
    decreases levels.len(),
{
    if k < closed_among(rows, levels.drop_last())->Ok_0.len() {
        only_closed_levels_are_listed(rows, levels.drop_last(), k)
    } else {
        levels.len() - 1
    }
}

/// Reopening an account opens nothing but closed accounts: it and those above
/// it.
pub proof fn only_closed_accounts_are_reopened(rows: Seq<AccountRowV>, path: Seq<char>, k: int)
    requires
        reopening(rows, path) is Ok,
        0 <= k < reopening(rows, path)->Ok_0.len(),
    ensures
        exists|i: int|
            0 <= i < rows.len() && (#[trigger] rows[i]).closed && rows[i].id == reopening(
                rows,
                path,
            )->Ok_0[k] && accounts::within(path, rows[i].path),
{
    let levels = accounts::levels(path);
    let n = only_closed_levels_are_listed(rows, levels, k);
    review::row_is_the_first(rows, levels[n], 0);
    accounts::within_its_levels(path, n);
    let i = review::row_at(rows, levels[n], 0)->0;
    assert(rows[i].closed);
}

} // verus!
