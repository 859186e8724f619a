//! The chart of accounts: which ledger account an account number, an app label
//! or a bank's own wording stands for.

use vstd::prelude::*;

use crate::text;

verus! {

/// The bank the statements come from, and how the app names it.
#[derive(Clone, Debug)]
pub struct Institution {
    /// The app's own label for the bank.
    pub app_account: String,
    /// Where a record under that label lands.
    pub primary: String,
    /// Where one lands that settles with the broker.
    pub settlement: String,
    /// The app's label for the broker.
    pub settlement_app_account: String,
    /// Holds a transfer whose other half has not been seen.
    pub clearing: String,
    /// Ledger accounts by account number; a number stands once.
    pub accounts: Vec<(String, String)>,
}

/// Where a line goes that nothing else explains.
#[derive(Clone, Debug)]
pub struct Fallback {
    pub income: String,
    pub expense: String,
    /// Ledger accounts by the bank's wording; a wording stands once.
    pub descriptions: Vec<(String, String)>,
}

#[derive(Clone, Debug)]
pub struct Chart {
    pub institution: Institution,
    pub fallback: Fallback,
    /// Ledger accounts by app label; a label stands once.
    pub accounts: Vec<(String, String)>,
    /// Roots of the accounts whose balance is counted by hand.
    pub counted: Vec<String>,
}

/// A table's entries.
pub open spec fn table(t: Seq<(String, String)>) -> Seq<(Seq<char>, Seq<char>)> {
    t.map_values(|e: (String, String)| (e.0@, e.1@))
}

/// What the table `t` has under `key`: its first such entry.
pub open spec fn under(t: Seq<(Seq<char>, Seq<char>)>, key: Seq<char>) -> Option<Seq<char>>
    decreases t.len(),
{
    if t.len() == 0 {
        None
    } else if t[0].0 == key {
        Some(t[0].1)
    } else {
        under(t.skip(1), key)
    }
}

/// What `t` has under `key`.
pub fn lookup<'a>(t: &'a Vec<(String, String)>, key: &str) -> (r: Option<&'a String>)
    ensures
        match r {
            Some(v) => under(table(t@), key@) == Some(v@),
            None => under(table(t@), key@) is None,
        },
{
    let mut i: usize = 0;
    assert(table(t@).skip(0) =~= table(t@));
    while i < t.len()
        invariant
            i <= t@.len(),
            under(table(t@), key@) == under(table(t@).skip(i as int), key@),
        decreases t@.len() - i,
    {
        assert(table(t@).skip(i as int).skip(1) =~= table(t@).skip(i as int + 1));
        if text::same_text(t[i].0.as_str(), key) {
            return Some(&t[i].1);
        }
        i = i + 1;
    }
    None
}

/// Is `value` the value of an entry of `t`?
pub open spec fn is_value(t: Seq<(Seq<char>, Seq<char>)>, value: Seq<char>) -> bool {
    exists|i: int| 0 <= i < t.len() && (#[trigger] t[i]).1 == value
}

/// Is `value` the value of an entry of `t`?
pub fn has_value(t: &Vec<(String, String)>, value: &str) -> (r: bool)
    ensures
        r == is_value(table(t@), value@),
{
    let mut i: usize = 0;
    while i < t.len()
        invariant
            i <= t@.len(),
            forall|j: int| 0 <= j < i ==> (#[trigger] table(t@)[j]).1 != value@,
        decreases t@.len() - i,
    {
        assert(table(t@)[i as int].1 == t@[i as int].1@);
        if text::same_text(t[i].1.as_str(), value) {
            return true;
        }
        i = i + 1;
    }
    false
}

/// Is `path` the account `root`, or under it?
pub open spec fn within(path: Seq<char>, root: Seq<char>) -> bool {
    path == root || text::starts(path, root.push(':'))
}

/// Is `path` the account `root`, or under it?
pub fn in_subtree(path: &str, root: &str) -> (r: bool)
    ensures
        r == within(path@, root@),
{
    if text::same_text(path, root) {
        return true;
    }
    let mut prefix = text::copy(root);
    prefix.push(':');
    text::starts_with(path, prefix.as_str())
}

/// Is `path` under one of `roots`?
pub open spec fn under_any(path: Seq<char>, roots: Seq<Seq<char>>) -> bool {
    exists|i: int| 0 <= i < roots.len() && within(path, #[trigger] roots[i])
}

impl Chart {
    /// The ledger account an app label is mapped to.
    pub fn account(&self, label: &str) -> (r: Option<&String>)
        ensures
            match r {
                Some(v) => under(table(self.accounts@), label@) == Some(v@),
                None => under(table(self.accounts@), label@) is None,
            },
    {
        lookup(&self.accounts, label)
    }

    /// Is `path` an account whose balance is counted by hand?
    pub fn is_counted(&self, path: &str) -> (r: bool)
        ensures
            r == under_any(path@, text::texts(self.counted@)),
    {
        let mut i: usize = 0;
        while i < self.counted.len()
            invariant
                i <= self.counted@.len(),
                forall|j: int|
                    0 <= j < i ==> !within(path@, #[trigger] text::texts(self.counted@)[j]),
            decreases self.counted@.len() - i,
        {
            assert(text::texts(self.counted@)[i as int] == self.counted@[i as int]@);
            if in_subtree(path, self.counted[i].as_str()) {
                return true;
            }
            i = i + 1;
        }
        false
    }
}

proof fn start_of_start(s: Seq<char>, a: Seq<char>, b: Seq<char>)
    requires
        text::starts(s, a),
        text::starts(a, b),
    ensures
        text::starts(s, b),
{
    assert(s.subrange(0, b.len() as int) =~= a.subrange(0, b.len() as int));
}

/// What is under an account under a root is under the root.
pub proof fn within_is_transitive(path: Seq<char>, middle: Seq<char>, root: Seq<char>)
    requires
        within(path, middle),
        within(middle, root),
    ensures
        within(path, root),
{
    if path != middle && middle != root {
        assert(text::starts(middle.push(':'), root.push(':'))) by {
            assert(middle.push(':').subrange(0, root.len() as int + 1) =~= middle.subrange(
                0,
                root.len() as int + 1,
            ));
        }
        start_of_start(path, middle.push(':'), root.push(':'));
    }
}

/// The accounts above `path` that end within its first `n` characters, from
/// the root down.
pub open spec fn above(path: Seq<char>, n: int) -> Seq<Seq<char>>
    decreases n,
{
    if n <= 0 {
        Seq::empty()
    } else if path[n - 1] == ':' {
        above(path, n - 1).push(path.take(n - 1))
    } else {
        above(path, n - 1)
    }
}

/// The accounts above `path`, from the root down, and `path` itself.
pub open spec fn levels(path: Seq<char>) -> Seq<Seq<char>> {
    above(path, path.len() as int).push(path)
}

/// The accounts above `path`, from the root down, and `path` itself.
pub fn levels_of(path: &str) -> (r: Vec<String>)
    ensures
        text::texts(r@) == levels(path@),
{
    let cs = text::chars(path);
    let mut out: Vec<String> = Vec::new();
    let mut i: usize = 0;
    assert(text::texts(out@) =~= Seq::empty());
    while i < cs.len()
        invariant
            i <= cs@.len(),
            cs@ == path@,
            text::texts(out@) == above(path@, i as int),
        decreases cs@.len() - i,
    {
        let ghost before = out@;
        if cs[i] == ':' {
            let part = text::part(cs.as_slice(), 0, i);
            let one = text::string_of(part.as_slice());
            out.push(one);
            assert(one@ =~= path@.take(i as int));
            assert(text::texts(out@) =~= text::texts(before).push(one@));
        }
        i = i + 1;
    }
    let ghost before = out@;
    out.push(text::copy(path));
    assert(text::texts(out@) =~= text::texts(before).push(path@));
    out
}

/// One of the five roots of a chart.
#[derive(Clone, Copy, PartialEq, Eq, Structural, Debug)]
pub enum AccountType {
    Assets,
    Liabilities,
    Equity,
    Income,
    Expenses,
}

/// The root an account's path starts with.
pub open spec fn root_of(path: Seq<char>) -> Option<AccountType> {
    if within(path, "Assets"@) {
        Some(AccountType::Assets)
    } else if within(path, "Liabilities"@) {
        Some(AccountType::Liabilities)
    } else if within(path, "Equity"@) {
        Some(AccountType::Equity)
    } else if within(path, "Income"@) {
        Some(AccountType::Income)
    } else if within(path, "Expenses"@) {
        Some(AccountType::Expenses)
    } else {
        None
    }
}

impl AccountType {
    /// The root an account's path starts with.
    pub fn of_path(path: &str) -> (r: Option<AccountType>)
        ensures
            r == root_of(path@),
    {
        if in_subtree(path, "Assets") {
            Some(AccountType::Assets)
        } else if in_subtree(path, "Liabilities") {
            Some(AccountType::Liabilities)
        } else if in_subtree(path, "Equity") {
            Some(AccountType::Equity)
        } else if in_subtree(path, "Income") {
            Some(AccountType::Income)
        } else if in_subtree(path, "Expenses") {
            Some(AccountType::Expenses)
        } else {
            None
        }
    }
}

/// An account is within each of its levels.
pub proof fn within_its_levels(path: Seq<char>, i: int)
    requires
        0 <= i < levels(path).len(),
    ensures
        within(path, levels(path)[i]),
{
    if i < levels(path).len() - 1 {
        within_above(path, path.len() as int, i);
    }
}

proof fn within_above(path: Seq<char>, n: int, i: int)
    requires
        0 <= n <= path.len(),
        0 <= i < above(path, n).len(),
    ensures
        within(path, above(path, n)[i]),
    decreases n,
{
    if path[n - 1] == ':' && i == above(path, n - 1).len() {
        let root = path.take(n - 1);
        assert(path.subrange(0, n) =~= root.push(':'));
    } else {
        within_above(path, n - 1, i);
    }
}

/// Every account above another is among its levels: what stands before each
/// `:` of its path.
pub proof fn every_level_is_listed(path: Seq<char>, n: int)
    requires
        0 <= n < path.len(),
        path[n] == ':',
    ensures
        levels(path).contains(path.take(n)),
        levels(path).last() == path,
{
    let all = above(path, path.len() as int);
    listed_above(path, path.len() as int, n);
    let i = choose|i: int| 0 <= i < all.len() && all[i] == path.take(n);
    assert(levels(path)[i] == path.take(n));
}

proof fn listed_above(path: Seq<char>, m: int, n: int)
    requires
        0 <= n < m <= path.len(),
        path[n] == ':',
    ensures
        above(path, m).contains(path.take(n)),
    decreases m,
{
    let (before, now) = (above(path, m - 1), above(path, m));
    if n < m - 1 {
        listed_above(path, m - 1, n);
        let i = choose|i: int| 0 <= i < before.len() && before[i] == path.take(n);
        assert(now[i] == path.take(n));
    } else {
        assert(now[before.len() as int] == path.take(n));
    }
}

/// An account is under another where that one's path and a `:` start its own;
/// a path that merely starts alike is not.
pub proof fn what_is_under_an_account(path: Seq<char>, root: Seq<char>, rest: Seq<char>)
    ensures
        within(root, root),
        within(root + seq![':'] + rest, root),
        within(path, root) ==> path == root || (path.len() > root.len() && path[root.len() as int]
            == ':' && path.take(root.len() as int) == root),
{
    let deep = root + seq![':'] + rest;
    assert(deep.subrange(0, root.len() as int + 1) =~= root.push(':'));
    if text::starts(path, root.push(':')) {
        let head = path.subrange(0, root.len() as int + 1);
        assert(head[root.len() as int] == ':');
        assert(path.take(root.len() as int) =~= root.push(':').take(root.len() as int));
        assert(root.push(':').take(root.len() as int) =~= root);
    }
}

} // verus!
