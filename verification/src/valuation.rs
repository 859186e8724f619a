//! Accounts whose recorded balance is what was paid, not what it is worth.
//!
//! An unlisted holding has no market price, so its balance is a cost, and
//! adding it to a net-worth total would read as a valuation nobody made. Such
//! accounts are listed in `mapping.toml`:
//!
//! ```toml
//! [at_cost]
//! accounts = ["Assets:Unlisted"]
//! ```
//!
//! Config rather than a column on the account: which holdings have a real
//! valuation changes with the data, not with the ledger's history.

use vstd::prelude::*;

use crate::accounts;
use crate::refusal::Refusal;
use crate::text;
use crate::text::Class;

verus! {

/// The keys `toml::from_str` finds at the top of a text, or why it is refused.
pub uninterp spec fn toml_keys(s: Seq<char>) -> Result<Seq<Seq<char>>, Seq<char>>;

/// The lists of texts under a key at the top of a text, by their own keys.
pub uninterp spec fn toml_lists(s: Seq<char>, key: Seq<char>) -> Option<
    Seq<(Seq<char>, Seq<Seq<char>>)>,
>;

/// The lists of texts in the array under a key at the top of a text.
pub uninterp spec fn toml_array(s: Seq<char>, key: Seq<char>) -> Option<Seq<Seq<Seq<char>>>>;

pub open spec fn keys_view(r: Result<Vec<String>, String>) -> Result<Seq<Seq<char>>, Seq<char>> {
    match r {
        Ok(v) => Ok(text::texts(v@)),
        Err(e) => Err(e@),
    }
}

pub open spec fn list_views(v: Seq<(String, Vec<String>)>) -> Seq<(Seq<char>, Seq<Seq<char>>)> {
    v.map_values(|e: (String, Vec<String>)| (e.0@, text::texts(e.1@)))
}

pub open spec fn array_views(v: Seq<Vec<String>>) -> Seq<Seq<Seq<char>>> {
    v.map_values(|e: Vec<String>| text::texts(e@))
}

/// `toml::from_str` into a `toml::Table`, as the keys of the table. Which texts
/// are TOML is left to `toml_keys`.
#[verifier::external_body]
fn read_keys(s: &str) -> (r: Result<Vec<String>, String>)
    ensures
        keys_view(r) == toml_keys(s@),
{
    let table: Result<toml::Table, toml::de::Error> = toml::from_str(s);
    table.map(|t| t.keys().cloned().collect()).map_err(|e| e.to_string())
}

/// `toml::Value::try_into` a map of lists of texts, on the value under `key`;
/// `None` where there is none or it is something else. What the value holds is
/// left to `toml_lists`.
#[verifier::external_body]
fn read_lists(s: &str, key: &str) -> (r: Option<Vec<(String, Vec<String>)>>)
    ensures
        r matches Some(v) ==> toml_lists(s@, key@) == Some(list_views(v@)),
        r is None ==> toml_lists(s@, key@) is None,
{
    let table: toml::Table = toml::from_str(s).ok()?;
    let value = table.get(key)?.clone();
    let lists: std::collections::BTreeMap<String, Vec<String>> = value.try_into().ok()?;
    Some(lists.into_iter().collect())
}

/// `toml::Value::try_into` an array of lists of texts, on the value under
/// `key`; `None` where there is none or it is something else. What the value
/// holds is left to `toml_array`.
#[verifier::external_body]
fn read_array(s: &str, key: &str) -> (r: Option<Vec<Vec<String>>>)
    ensures
        r matches Some(v) ==> toml_array(s@, key@) == Some(array_views(v@)),
        r is None ==> toml_array(s@, key@) is None,
{
    let table: toml::Table = toml::from_str(s).ok()?;
    table.get(key)?.clone().try_into().ok()
}

/// What `str::to_lowercase` makes of a text.
pub uninterp spec fn lowercased(s: Seq<char>) -> Seq<char>;

/// `str::to_lowercase`. The lower case of each character is left to
/// `lowercased`.
#[verifier::external_body]
pub(crate) fn to_lowercase(s: &str) -> (r: String)
    ensures
        r@ == lowercased(s@),
{
    s.to_lowercase()
}

/// A key without its case and the characters that join its words.
pub open spec fn squashed(key: Seq<char>) -> Seq<char> {
    text::kept(lowercased(key), Class::Joined)
}

/// Does the key only nearly read `at_cost`?
pub open spec fn nearly(key: Seq<char>) -> bool {
    key != "at_cost"@ && squashed(key) == "atcost"@
}

/// The first key at or after `from` that only nearly reads `at_cost`.
pub open spec fn near_miss(keys: Seq<Seq<char>>, from: int) -> Option<Seq<char>>
    decreases keys.len() - from,
{
    if from < 0 || from >= keys.len() {
        None
    } else if nearly(keys[from]) {
        Some(keys[from])
    } else {
        near_miss(keys, from + 1)
    }
}

/// What the section is refused with that is not as it should be.
pub open spec fn misread() -> Seq<char> {
    "[at_cost] is not `accounts`, a list of accounts"@
}

/// The accounts the section lists: under `accounts` in a table that holds
/// nothing else, or as the one list of an array; none where it is empty.
pub open spec fn listed(
    lists: Option<Seq<(Seq<char>, Seq<Seq<char>>)>>,
    array: Option<Seq<Seq<Seq<char>>>>,
) -> Result<Seq<Seq<char>>, Seq<char>> {
    match (lists, array) {
        (Some(fields), _) => if fields.len() == 0 {
            Ok(Seq::empty())
        } else if fields.len() == 1 && fields[0].0 == "accounts"@ {
            Ok(fields[0].1)
        } else {
            Err(misread())
        },
        (None, Some(elements)) => if elements.len() == 0 {
            Ok(Seq::empty())
        } else if elements.len() == 1 {
            Ok(elements[0])
        } else {
            Err(misread())
        },
        (None, None) => Err(misread()),
    }
}

/// The accounts a config lists, given its keys and what it has under
/// `at_cost`.
pub open spec fn roots_in(
    keys: Result<Seq<Seq<char>>, Seq<char>>,
    lists: Option<Seq<(Seq<char>, Seq<Seq<char>>)>>,
    array: Option<Seq<Seq<Seq<char>>>>,
) -> Result<Seq<Seq<char>>, Seq<char>> {
    match keys {
        Err(e) => Err(e),
        Ok(keys) => match near_miss(keys, 0) {
            Some(near) => Err(
                "["@ + near + "] is not a section; holdings at cost go under [at_cost]"@,
            ),
            None => if keys.contains("at_cost"@) {
                listed(lists, array)
            } else {
                Ok(Seq::empty())
            },
        },
    }
}

/// The configured subtrees. Empty means every balance is a valuation.
#[derive(Debug, Clone)]
pub struct AtCost {
    roots: Vec<String>,
}

/// The holding `account` belongs to under the listed account `root`: the
/// account itself, or the child of it that `account` sits in.
pub open spec fn holding_under(account: Seq<char>, root: Seq<char>) -> Option<Seq<char>> {
    match text::stripped(account, root) {
        None => None,
        Some(rest) => if rest.len() == 0 {
            Some(account)
        } else {
            match text::stripped(rest, ":"@) {
                None => None,
                Some(below) => {
                    let child = match text::place(below, ":"@) {
                        Some(i) => i,
                        None => below.len() as int,
                    };
                    Some(account.take(root.len() + 1 + child))
                },
            }
        },
    }
}

/// The holding `account` belongs to under the first of `roots`, at or after
/// `from`, that it belongs to.
pub open spec fn holding_from(account: Seq<char>, roots: Seq<Seq<char>>, from: int) -> Option<
    Seq<char>,
>
    decreases roots.len() - from,
{
    if from < 0 || from >= roots.len() {
        None
    } else {
        match holding_under(account, roots[from]) {
            Some(h) => Some(h),
            None => holding_from(account, roots, from + 1),
        }
    }
}

impl View for AtCost {
    type V = Seq<Seq<char>>;

    closed spec fn view(&self) -> Seq<Seq<char>> {
        text::texts(self.roots@)
    }
}

fn copies(v: &Vec<String>) -> (r: Vec<String>)
    ensures
        text::texts(r@) == text::texts(v@),
{
    let ghost all = text::texts(v@);
    let mut out: Vec<String> = Vec::new();
    let mut i: usize = 0;
    assert(text::texts(out@) =~= all.take(0));
    while i < v.len()
        invariant
            i <= v@.len(),
            all == text::texts(v@),
            text::texts(out@) == all.take(i as int),
        decreases v@.len() - i,
    {
        let ghost before = out@;
        let s = text::copy(v[i].as_str());
        out.push(s);
        assert(text::texts(out@) =~= text::texts(before).push(s@));
        assert(all.take(i as int + 1) =~= all.take(i as int).push(all[i as int]));
        i = i + 1;
    }
    assert(all.take(i as int) =~= all);
    out
}

impl Default for AtCost {
    /// No holding at cost.
    fn default() -> (r: AtCost)
        ensures
            r@ == Seq::<Seq<char>>::empty(),
    {
        AtCost::none()
    }
}

impl AtCost {
    /// No holding at cost.
    pub fn none() -> (r: AtCost)
        ensures
            r@ == Seq::<Seq<char>>::empty(),
    {
        let out = AtCost { roots: Vec::new() };
        assert(out@ =~= Seq::empty());
        out
    }

    /// The accounts a config lists, given its keys and what it has under
    /// `at_cost`.
    pub fn from_sections(
        keys: &Result<Vec<String>, String>,
        lists: &Option<Vec<(String, Vec<String>)>>,
        array: &Option<Vec<Vec<String>>>,
    ) -> (r: Result<AtCost, Refusal>)
        ensures
            ({
                let found = roots_in(
                    keys_view(*keys),
                    match *lists {
                        Some(v) => Some(list_views(v@)),
                        None => None,
                    },
                    match *array {
                        Some(v) => Some(array_views(v@)),
                        None => None,
                    },
                );
                match r {
                    Ok(a) => found == Ok::<Seq<Seq<char>>, Seq<char>>(a@),
                    Err(e) => found == Err::<Seq<Seq<char>>, Seq<char>>(e@),
                }
            }),
    {
        let names = match keys {
            Ok(names) => names,
            Err(e) => {
                return Err(Refusal { message: text::copy(e.as_str()) });
            },
        };
        let ghost all = text::texts(names@);
        let mut i: usize = 0;
        while i < names.len()
            invariant
                i <= names@.len(),
                all == text::texts(names@),
                keys_view(*keys) == Ok::<Seq<Seq<char>>, Seq<char>>(all),
                near_miss(all, 0) == near_miss(all, i as int),
            decreases names@.len() - i,
        {
            assert(all[i as int] == names@[i as int]@);
            if !text::same_text(names[i].as_str(), "at_cost") && text::same_text(
                text::keep(to_lowercase(names[i].as_str()).as_str(), Class::Joined).as_str(),
                "atcost",
            ) {
                let mut out = text::copy("[");
                out.append(names[i].as_str());
                out.append("] is not a section; holdings at cost go under [at_cost]");
                return Err(Refusal { message: out });
            }
            i = i + 1;
        }
        match text::position(names.as_slice(), "at_cost") {
            None => {
                assert(!all.contains("at_cost"@)) by {
                    assert forall|j: int| 0 <= j < all.len() implies all[j] != "at_cost"@ by {
                        assert(all[j] == names@[j]@);
                    }
                }
                return Ok(AtCost::none());
            },
            Some(j) => {
                assert(all[j as int] == "at_cost"@);
            },
        }
        if let Some(fields) = lists {
            let ghost views = list_views(fields@);
            assert(views.len() == fields@.len());
            if fields.len() == 0 {
                return Ok(AtCost::none());
            }
            assert(views[0] == (fields@[0].0@, text::texts(fields@[0].1@)));
            if fields.len() == 1 && text::same_text(fields[0].0.as_str(), "accounts") {
                return Ok(AtCost { roots: copies(&fields[0].1) });
            }
            return Err(Refusal::new("[at_cost] is not `accounts`, a list of accounts"));
        }
        if let Some(elements) = array {
            let ghost views = array_views(elements@);
            assert(views.len() == elements@.len());
            if elements.len() == 0 {
                return Ok(AtCost::none());
            }
            assert(views[0] == text::texts(elements@[0]@));
            if elements.len() == 1 {
                return Ok(AtCost { roots: copies(&elements[0]) });
            }
        }
        Err(Refusal::new("[at_cost] is not `accounts`, a list of accounts"))
    }

    /// Reads a config. The file is shared with Fava, so other sections are
    /// allowed; one whose name only nearly reads `at_cost` is refused. A
    /// misspelled key would otherwise leave the list empty and count the
    /// holding in net worth.
    pub fn parse(s: &str) -> (r: Result<AtCost, Refusal>)
        ensures
            ({
                let found = roots_in(
                    toml_keys(s@),
                    toml_lists(s@, "at_cost"@),
                    toml_array(s@, "at_cost"@),
                );
                match r {
                    Ok(a) => found == Ok::<Seq<Seq<char>>, Seq<char>>(a@),
                    Err(e) => found == Err::<Seq<Seq<char>>, Seq<char>>(e@),
                }
            }),
    {
        let keys = read_keys(s);
        let lists = read_lists(s, "at_cost");
        let array = read_array(s, "at_cost");
        AtCost::from_sections(&keys, &lists, &array)
    }

    /// True for a listed account and everything under it.
    pub fn covers(&self, account: &str) -> (r: bool)
        ensures
            r == accounts::under_any(account@, self@),
            r == (holding_from(account@, self@, 0) is Some),
    {
        proof {
            covered_is_under(account@, self@);
        }
        self.holding(account).is_some()
    }

    /// The holding `account` belongs to: a listed account holds itself, and
    /// an account under one belongs to the listed account's child it sits
    /// in (`Assets:Unlisted:Alpha:Shares` → `Assets:Unlisted:Alpha`).
    pub fn holding(&self, account: &str) -> (r: Option<String>)
        ensures
            text::opt(r) == holding_from(account@, self@, 0),
    {
        let ghost roots = self@;
        let mut i: usize = 0;
        while i < self.roots.len()
            invariant
                i <= self.roots@.len(),
                roots == text::texts(self.roots@),
                holding_from(account@, roots, 0) == holding_from(account@, roots, i as int),
            decreases self.roots@.len() - i,
        {
            assert(roots[i as int] == self.roots@[i as int]@);
            let root = self.roots[i].as_str();
            if let Some(rest) = text::strip_prefix(account, root) {
                if rest.as_str().is_empty() {
                    return Some(text::copy(account));
                }
                if let Some(below) = text::strip_prefix(rest.as_str(), ":") {
                    let child = match text::split_once(below.as_str(), ":") {
                        Some((child, _)) => child,
                        None => below,
                    };
                    let mut out = text::copy(root);
                    out.append(":");
                    out.append(child.as_str());
                    proof {
                        child_is_a_prefix(account@, root@, below@, child@);
                    }
                    return Some(out);
                }
            }
            i = i + 1;
        }
        None
    }
}

proof fn place_bound(s: Seq<char>, pat: Seq<char>, from: int)
    requires
        0 <= from,
    ensures
        text::found(s, pat, from) matches Some(i) ==> from <= i && i + pat.len() <= s.len(),
    decreases s.len() - from + 1,
{
    if from + pat.len() <= s.len() && !text::stands_at(s, pat, from) {
        place_bound(s, pat, from + 1);
    }
}

proof fn child_is_a_prefix(
    account: Seq<char>,
    root: Seq<char>,
    below: Seq<char>,
    child: Seq<char>,
)
    requires
        text::stripped(account, root) matches Some(rest) && rest.len() > 0 && text::stripped(
            rest,
            ":"@,
        ) == Some(below),
        child == (match text::place(below, ":"@) {
            Some(i) => below.take(i),
            None => below,
        }),
    ensures
        holding_under(account, root) == Some(root + ":"@ + child),
{
    reveal_strlit(":");
    place_bound(below, ":"@, 0);
    let rest = text::stripped(account, root)->0;
    assert(account =~= root + rest) by {
        assert(account.subrange(0, root.len() as int) == root);
    }
    assert(rest =~= ":"@ + below) by {
        assert(rest.subrange(0, 1) == ":"@);
    }
    let n = child.len() as int;
    assert(below.take(n) =~= child);
    assert(account.take(root.len() + 1 + n) =~= root + ":"@ + child);
}

proof fn held_is_within(account: Seq<char>, root: Seq<char>)
    ensures
        holding_under(account, root) is Some <==> accounts::within(account, root),
{
    reveal_strlit(":");
    if text::starts(account, root) {
        let rest = account.skip(root.len() as int);
        assert(account =~= root + rest) by {
            assert(account.subrange(0, root.len() as int) == root);
        }
        if rest.len() == 0 {
            assert(account =~= root);
        } else {
            assert(text::starts(rest, ":"@) <==> rest[0] == ':') by {
                assert(rest.subrange(0, 1) =~= seq![rest[0]]);
                assert(":"@ =~= seq![':']);
                if rest.subrange(0, 1) == ":"@ {
                    assert(rest.subrange(0, 1)[0] == ':');
                }
            }
            assert(text::starts(account, root.push(':')) <==> rest[0] == ':') by {
                assert(account.subrange(0, root.len() as int + 1) =~= root.push(rest[0]));
                if rest[0] != ':' {
                    assert(root.push(rest[0])[root.len() as int] != root.push(':')[root.len() as int]);
                }
            }
        }
    } else {
        if account == root {
            assert(account.subrange(0, root.len() as int) =~= root);
        }
        if text::starts(account, root.push(':')) {
            assert(account.subrange(0, root.len() as int) =~= account.subrange(
                0,
                root.len() as int + 1,
            ).subrange(0, root.len() as int));
            assert(root.push(':').subrange(0, root.len() as int) =~= root);
        }
    }
}

proof fn held_from_is_within(account: Seq<char>, roots: Seq<Seq<char>>, from: int)
    requires
        0 <= from <= roots.len(),
    ensures
        holding_from(account, roots, from) is Some <==> exists|i: int|
            from <= i < roots.len() && accounts::within(account, #[trigger] roots[i]),
    decreases roots.len() - from,
{
    if from < roots.len() {
        held_is_within(account, roots[from]);
        held_from_is_within(account, roots, from + 1);
    }
}

/// An account belongs to a holding where it is a listed account or under one.
pub proof fn covered_is_under(account: Seq<char>, roots: Seq<Seq<char>>)
    ensures
        holding_from(account, roots, 0) is Some <==> accounts::under_any(account, roots),
{
    held_from_is_within(account, roots, 0);
}

/// Is `h` the holding of `account` under `root`: the account itself where it is
/// the root, or the root's child that the account is or sits in?
pub open spec fn is_holding(h: Seq<char>, account: Seq<char>, root: Seq<char>) -> bool {
    if account == root {
        h == account
    } else {
        &&& accounts::within(account, h)
        &&& exists|child: Seq<char>| h == #[trigger] (root + ":"@ + child) && !child.contains(':')
    }
}

proof fn nothing_before_the_place(s: Seq<char>, pat: Seq<char>, from: int)
    requires
        0 <= from,
    ensures
        match text::found(s, pat, from) {
            Some(i) => from <= i && text::stands_at(s, pat, i) && forall|k: int|
                from <= k < i ==> !#[trigger] text::stands_at(s, pat, k),
            None => forall|k: int| from <= k ==> !#[trigger] text::stands_at(s, pat, k),
        },
    decreases s.len() - from + 1,
{
    if from + pat.len() <= s.len() && !text::stands_at(s, pat, from) {
        nothing_before_the_place(s, pat, from + 1);
    }
}

proof fn a_holding_is_a_child(account: Seq<char>, root: Seq<char>)
    requires
        holding_under(account, root) is Some,
    ensures
        is_holding(holding_under(account, root)->0, account, root),
{
    reveal_strlit(":");
    assert(":"@ =~= seq![':']);
    let rest = text::stripped(account, root)->0;
    assert(account =~= root + rest) by {
        assert(account.subrange(0, root.len() as int) == root);
    }
    if rest.len() == 0 {
        assert(account =~= root);
    } else {
        let below = text::stripped(rest, ":"@)->0;
        assert(rest =~= ":"@ + below) by {
            assert(rest.subrange(0, 1) == ":"@);
        }
        let child = match text::place(below, ":"@) {
            Some(i) => below.take(i),
            None => below,
        };
        child_is_a_prefix(account, root, below, child);
        nothing_before_the_place(below, ":"@, 0);
        let h = root + ":"@ + child;
        assert(!child.contains(':')) by {
            if child.contains(':') {
                let k = choose|k: int| 0 <= k < child.len() && child[k] == ':';
                assert(below[k] == ':');
                assert(below.subrange(k, k + 1) =~= ":"@);
                assert(text::stands_at(below, ":"@, k));
            }
        }
        assert(account != root) by {
            assert(account.len() != root.len());
        }
        assert(accounts::within(account, h)) by {
            match text::place(below, ":"@) {
                None => {
                    assert(account =~= h);
                },
                Some(i) => {
                    assert(text::stands_at(below, ":"@, i));
                    assert(below.subrange(i, i + 1)[0] == ':');
                    assert(below[i] == ':');
                    assert(account.subrange(0, h.len() as int + 1) =~= h.push(':'));
                },
            }
        }
    }
}

/// An account belongs to the holding under the first listed account it is or
/// sits in.
pub proof fn a_holding_is_under_the_first_root(account: Seq<char>, roots: Seq<Seq<char>>, i: int)
    requires
        0 <= i < roots.len(),
        accounts::within(account, roots[i]),
        forall|j: int| 0 <= j < i ==> !accounts::within(account, #[trigger] roots[j]),
    ensures
        holding_from(account, roots, 0) matches Some(h) && is_holding(h, account, roots[i]),
{
    first_root(account, roots, i, 0);
    held_is_within(account, roots[i]);
    a_holding_is_a_child(account, roots[i]);
}

proof fn first_root(account: Seq<char>, roots: Seq<Seq<char>>, i: int, from: int)
    requires
        0 <= from <= i < roots.len(),
        accounts::within(account, roots[i]),
        forall|j: int| 0 <= j < i ==> !accounts::within(account, #[trigger] roots[j]),
    ensures
        holding_from(account, roots, from) == holding_under(account, roots[i]),
    decreases i - from,
{
    held_is_within(account, roots[from]);
    if from < i {
        first_root(account, roots, i, from + 1);
    }
}

/// A config without the section lists nothing, one with a key that only nearly
/// names it is refused, and one with it lists what the section does.
pub proof fn a_config_lists_its_section(
    keys: Seq<Seq<char>>,
    lists: Option<Seq<(Seq<char>, Seq<Seq<char>>)>>,
    array: Option<Seq<Seq<Seq<char>>>>,
    i: int,
)
    ensures
        ({
            let found = roots_in(Ok(keys), lists, array);
            &&& 0 <= i < keys.len() && nearly(keys[i]) ==> found is Err
            &&& !keys.contains("at_cost"@) && found is Ok ==> found->Ok_0.len() == 0
            &&& keys.contains("at_cost"@) && found is Ok ==> (match (lists, array) {
                (Some(fields), _) => (fields.len() == 0 && found->Ok_0.len() == 0) || fields
                    == seq![("accounts"@, found->Ok_0)],
                (None, Some(elements)) => (elements.len() == 0 && found->Ok_0.len() == 0)
                    || elements == seq![found->Ok_0],
                (None, None) => false,
            })
        }),
{
    if 0 <= i < keys.len() && nearly(keys[i]) {
        near_misses_are_found(keys, i, 0);
    }
    if let Some(fields) = lists {
        if fields.len() == 1 {
            assert(fields =~= seq![fields[0]]);
        }
    } else if let Some(elements) = array {
        if elements.len() == 1 {
            assert(elements =~= seq![elements[0]]);
        }
    }
}

proof fn near_misses_are_found(keys: Seq<Seq<char>>, i: int, from: int)
    requires
        0 <= from <= i < keys.len(),
        nearly(keys[i]),
    ensures
        near_miss(keys, from) is Some,
    decreases i - from,
{
    if from < i {
        near_misses_are_found(keys, i, from + 1);
    }
}

} // verus!
