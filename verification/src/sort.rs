//! Stable sorting by a key of a text and numbers.

use vstd::prelude::*;

use crate::text;

verus! {

/// What items are sorted by: the text first, then the numbers in order.
#[derive(Debug, PartialEq)]
pub struct Key {
    pub text: String,
    pub numbers: (i64, i64, i64, i64),
}

/// What a key is.
pub struct KeyV {
    pub text: Seq<char>,
    pub numbers: (int, int, int, int),
}

impl View for Key {
    type V = KeyV;

    open spec fn view(&self) -> KeyV {
        KeyV {
            text: self.text@,
            numbers: (
                self.numbers.0 as int,
                self.numbers.1 as int,
                self.numbers.2 as int,
                self.numbers.3 as int,
            ),
        }
    }
}

/// Do the numbers `a` come before `b`?
pub open spec fn numbers_before(a: (int, int, int, int), b: (int, int, int, int)) -> bool {
    ||| a.0 < b.0
    ||| a.0 == b.0 && a.1 < b.1
    ||| a.0 == b.0 && a.1 == b.1 && a.2 < b.2
    ||| a.0 == b.0 && a.1 == b.1 && a.2 == b.2 && a.3 < b.3
}

/// Does `a` come before `b`?
pub open spec fn key_before(a: KeyV, b: KeyV) -> bool {
    text::before(a.text, b.text) || (a.text == b.text && numbers_before(a.numbers, b.numbers))
}

/// Where an item with the key `k` goes among the items `sorted`, behind those
/// with an equal key.
pub open spec fn place(keys: Seq<KeyV>, sorted: Seq<int>, k: KeyV) -> int
    decreases sorted.len(),
{
    if sorted.len() > 0 && key_before(k, keys[sorted.last()]) {
        place(keys, sorted.drop_last(), k)
    } else {
        sorted.len() as int
    }
}

/// The items in the order of their keys, by where they stood; those with an
/// equal key as they stood.
pub open spec fn order(keys: Seq<KeyV>) -> Seq<int>
    decreases keys.len(),
{
    if keys.len() == 0 {
        Seq::empty()
    } else {
        let before = order(keys.drop_last());
        before.insert(place(keys, before, keys.last()), keys.len() - 1)
    }
}

pub open spec fn keys_of<T>(items: Seq<(Key, T)>) -> Seq<KeyV> {
    items.map_values(|e: (Key, T)| e.0@)
}

/// `items` in the order `by`.
pub open spec fn arranged<T>(items: Seq<T>, by: Seq<int>) -> Seq<T> {
    by.map_values(|i: int| items[i])
}

impl Key {
    pub(crate) fn before(&self, other: &Key) -> (r: bool)
        ensures
            r == key_before(self@, other@),
    {
        if text::comes_before(self.text.as_str(), other.text.as_str()) {
            return true;
        }
        if self.text != other.text {
            return false;
        }
        let (a, b) = (self.numbers, other.numbers);
        a.0 < b.0 || (a.0 == b.0 && (a.1 < b.1 || (a.1 == b.1 && (a.2 < b.2 || (a.2 == b.2 && a.3
            < b.3)))))
    }
}

impl Key {
    /// A key of a text alone.
    pub fn of_text(text: &str) -> (r: Key)
        ensures
            r@ == text_key(text@),
    {
        Key { text: text::copy(text), numbers: (0, 0, 0, 0) }
    }

    pub(crate) fn same(&self, other: &Key) -> (r: bool)
        ensures
            r == (self@ == other@),
    {
        self.text == other.text && self.numbers.0 == other.numbers.0 && self.numbers.1
            == other.numbers.1 && self.numbers.2 == other.numbers.2 && self.numbers.3
            == other.numbers.3
    }
}

/// The key of a text alone.
pub open spec fn text_key(s: Seq<char>) -> KeyV {
    KeyV { text: s, numbers: (0, 0, 0, 0) }
}

proof fn place_in_prefix(keys: Seq<KeyV>, sorted: Seq<int>, k: KeyV, more: KeyV)
    requires
        forall|i: int| 0 <= i < sorted.len() ==> 0 <= #[trigger] sorted[i] < keys.len(),
    ensures
        place(keys.push(more), sorted, k) == place(keys, sorted, k),
        0 <= place(keys, sorted, k) <= sorted.len(),
    decreases sorted.len(),
{
    if sorted.len() > 0 {
        place_in_prefix(keys, sorted.drop_last(), k, more);
    }
}

pub(crate) proof fn place_bounds(keys: Seq<KeyV>, sorted: Seq<int>, k: KeyV)
    ensures
        0 <= place(keys, sorted, k) <= sorted.len(),
    decreases sorted.len(),
{
    if sorted.len() > 0 {
        place_bounds(keys, sorted.drop_last(), k);
    }
}

/// Every item has one place in the order.
pub proof fn order_is_a_permutation(keys: Seq<KeyV>)
    ensures
        order(keys).len() == keys.len(),
        forall|i: int| 0 <= i < keys.len() ==> 0 <= #[trigger] order(keys)[i] < keys.len(),
        forall|i: int, j: int|
            0 <= i < j < keys.len() ==> #[trigger] order(keys)[i] != #[trigger] order(keys)[j],
    decreases keys.len(),
{
    if keys.len() > 0 {
        let shorter = keys.drop_last();
        order_is_a_permutation(shorter);
        place_in_prefix(shorter, order(shorter), keys.last(), keys.last());
        assert(shorter.push(keys.last()) =~= keys);
    }
}

/// `items` in the order of their keys.
pub fn sort<T>(items: Vec<(Key, T)>) -> (r: Vec<(Key, T)>)
    ensures
        r@ == arranged(items@, order(keys_of(items@))),
        r@.len() == items@.len(),
{
    let ghost all = items@;
    let ghost keys = keys_of(all);
    let total: usize = items.len();
    let mut rest = items;
    let mut out: Vec<(Key, T)> = Vec::new();
    let mut n: usize = 0;
    assert(order(keys.take(0)) =~= Seq::empty());
    assert(out@ =~= arranged(all, order(keys.take(0))));
    assert(rest@ =~= all.skip(0));
    while rest.len() > 0
        invariant
            n + rest@.len() == all.len() == total,
            rest@ == all.skip(n as int),
            keys == keys_of(all),
            out@ == arranged(all, order(keys.take(n as int))),
        decreases rest@.len(),
    {
        let item = rest.remove(0);
        let ghost seen = keys.take(n as int);
        let ghost ord = order(seen);
        let ghost k = keys[n as int];
        proof {
            order_is_a_permutation(seen);
            assert(item == all[n as int]);
            assert(item.0@ == k);
            place_in_prefix(seen, ord, k, k);
            assert(keys.take(n as int + 1).drop_last() =~= seen);
            assert(seen.push(k) =~= keys.take(n as int + 1));
        }
        let mut at: usize = out.len();
        assert(ord.take(at as int) =~= ord);
        while at > 0 && item.0.before(&out[at - 1].0)
            invariant
                at <= out@.len() == ord.len(),
                item.0@ == k,
                keys == keys_of(all),
                seen == keys.take(n as int),
                n < all.len(),
                out@ == arranged(all, ord),
                forall|i: int| 0 <= i < ord.len() ==> 0 <= #[trigger] ord[i] < n,
                place(seen, ord, k) == place(seen, ord.take(at as int), k),
            decreases at,
        {
            assert(out@[at - 1].0@ == seen[ord[at - 1]]);
            assert(ord.take(at as int).last() == ord[at - 1]);
            assert(ord.take(at as int).drop_last() =~= ord.take(at - 1));
            at = at - 1;
        }
        proof {
            if at > 0 {
                assert(out@[at - 1].0@ == seen[ord[at - 1]]);
                assert(ord.take(at as int).last() == ord[at - 1]);
            }
            assert(place(seen, ord, k) == at);
            assert(order(keys.take(n as int + 1)) == ord.insert(at as int, n as int));
        }
        let ghost before = out@;
        out.insert(at, item);
        proof {
            let now = ord.insert(at as int, n as int);
            assert(out@ == before.insert(at as int, item));
            assert forall|i: int| 0 <= i < now.len() implies out@[i] == all[#[trigger] now[i]] by {
                if i < at {
                    assert(now[i] == ord[i]);
                } else if i > at {
                    assert(now[i] == ord[i - 1]);
                    assert(out@[i] == before[i - 1]);
                }
            }
            assert(out@ =~= arranged(all, now));
            assert(rest@ =~= all.skip(n as int + 1));
        }
        n = n + 1;
    }
    assert(keys.take(n as int) =~= keys);
    proof {
        order_is_a_permutation(keys);
    }
    out
}

proof fn text_order(a: Seq<char>, b: Seq<char>, c: Seq<char>)
    ensures
        !text::before(a, a),
        text::before(a, b) ==> !text::before(b, a),
        text::before(a, b) && text::before(b, c) ==> text::before(a, c),
        text::before(a, b) || text::before(b, a) || a == b,
    decreases a.len() + b.len() + c.len(),
{
    if a.len() > 0 {
        if b.len() > 0 && c.len() > 0 {
            text_order(a.skip(1), b.skip(1), c.skip(1));
        } else if b.len() > 0 {
            text_order(a.skip(1), b.skip(1), c);
        } else {
            text_order(a.skip(1), b, c);
        }
        if b.len() > 0 && a[0] == b[0] && a.skip(1) == b.skip(1) {
            assert(a =~= seq![a[0]] + a.skip(1));
            assert(b =~= seq![b[0]] + b.skip(1));
        }
    } else if b.len() == 0 {
        assert(a =~= b);
    }
}

/// Keys are in a strict order.
pub proof fn keys_in_strict_order(a: KeyV, b: KeyV, c: KeyV)
    ensures
        !key_before(a, a),
        key_before(a, b) ==> !key_before(b, a),
        key_before(a, b) && key_before(b, c) ==> key_before(a, c),
        !key_before(a, b) && !key_before(b, c) ==> !key_before(a, c),
        key_before(a, b) || key_before(b, a) || a == b,
{
    text_order(a.text, b.text, c.text);
    text_order(b.text, a.text, c.text);
    text_order(c.text, b.text, a.text);
    text_order(a.text, c.text, b.text);
    text_order(b.text, c.text, a.text);
    text_order(c.text, a.text, b.text);
}

proof fn place_splits(keys: Seq<KeyV>, sorted: Seq<int>, k: KeyV)
    requires
        forall|i: int, j: int|
            0 <= i < j < sorted.len() ==> !key_before(
                keys[#[trigger] sorted[j]],
                keys[#[trigger] sorted[i]],
            ),
    ensures
        0 <= place(keys, sorted, k) <= sorted.len(),
        forall|i: int|
            0 <= i < place(keys, sorted, k) ==> !key_before(k, keys[#[trigger] sorted[i]]),
        forall|i: int|
            place(keys, sorted, k) <= i < sorted.len() ==> key_before(k, keys[#[trigger] sorted[i]]),
    decreases sorted.len(),
{
    if sorted.len() > 0 {
        if key_before(k, keys[sorted.last()]) {
            let shorter = sorted.drop_last();
            assert forall|i: int, j: int| 0 <= i < j < shorter.len() implies !key_before(
                keys[#[trigger] shorter[j]],
                keys[#[trigger] shorter[i]],
            ) by {
                assert(shorter[i] == sorted[i] && shorter[j] == sorted[j]);
            }
            place_splits(keys, shorter, k);
            assert forall|i: int|
                0 <= i < place(keys, sorted, k) implies !key_before(k, keys[#[trigger] sorted[i]]) by {
                assert(shorter[i] == sorted[i]);
            }
            assert forall|i: int|
                place(keys, sorted, k) <= i < sorted.len() implies key_before(
                k,
                keys[#[trigger] sorted[i]],
            ) by {
                if i < shorter.len() {
                    assert(shorter[i] == sorted[i]);
                }
            }
        } else {
            assert forall|i: int| 0 <= i < sorted.len() implies !key_before(
                k,
                keys[#[trigger] sorted[i]],
            ) by {
                keys_in_strict_order(k, keys[sorted.last()], keys[sorted[i]]);
                if i < sorted.len() - 1 {
                    assert(!key_before(keys[sorted[sorted.len() - 1]], keys[sorted[i]]));
                }
            }
        }
    }
}

/// No item stands before one with a lesser key, and items with an equal key
/// stand as they stood.
pub proof fn order_sorts(keys: Seq<KeyV>, i: int, j: int)
    requires
        0 <= i < j < keys.len(),
    ensures
        !key_before(keys[order(keys)[j]], keys[order(keys)[i]]),
        !key_before(keys[order(keys)[i]], keys[order(keys)[j]]) ==> order(keys)[i] < order(keys)[j],
    decreases keys.len(),
{
    let shorter = keys.drop_last();
    let before = order(shorter);
    let k = keys.last();
    order_is_a_permutation(shorter);
    assert(shorter.push(k) =~= keys);
    place_in_prefix(shorter, before, k, k);
    assert forall|a: int, b: int| 0 <= a < b < before.len() implies !key_before(
        keys[#[trigger] before[b]],
        keys[#[trigger] before[a]],
    ) by {
        order_sorts(shorter, a, b);
    }
    place_splits(keys, before, k);
    let at = place(keys, before, k);
    assert(order(keys) == before.insert(at, keys.len() - 1));
    if i < at && j < at {
        order_sorts(shorter, i, j);
    } else if i < at && j > at {
        order_sorts(shorter, i, j - 1);
    } else if i > at {
        order_sorts(shorter, i - 1, j - 1);
    } else if i == at {
        assert(key_before(k, keys[before[j - 1]]));
        keys_in_strict_order(k, keys[before[j - 1]], k);
    } else {
        assert(!key_before(k, keys[before[i]]));
    }
}

pub open spec fn key_views(v: Seq<Key>) -> Seq<KeyV> {
    v.map_values(|k: Key| k@)
}

pub open spec fn places(v: Seq<usize>) -> Seq<int> {
    v.map_values(|i: usize| i as int)
}

/// The order of the keys, by where they stood.
pub fn order_of(keys: Vec<Key>) -> (r: Vec<usize>)
    ensures
        places(r@) == order(key_views(keys@)),
        r@.len() == keys@.len(),
        forall|i: int| 0 <= i < r@.len() ==> #[trigger] r@[i] < keys@.len(),
{
    let ghost all = keys@;
    let ghost views = key_views(all);
    let mut rest = keys;
    let mut items: Vec<(Key, usize)> = Vec::new();
    let mut n: usize = 0;
    let total: usize = rest.len();
    assert(rest@ =~= all.skip(0));
    while rest.len() > 0
        invariant
            n == items@.len(),
            n + rest@.len() == all.len() == total,
            rest@ == all.skip(n as int),
            forall|i: int|
                0 <= i < n ==> (#[trigger] items@[i]).0@ == all[i]@ && items@[i].1 == i,
        decreases rest@.len(),
    {
        let k = rest.remove(0);
        items.push((k, n));
        n = n + 1;
        assert(rest@ =~= all.skip(n as int));
    }
    assert(keys_of(items@) =~= views);
    let ghost given = items@;
    let ghost by = order(views);
    proof {
        order_is_a_permutation(views);
    }
    let mut left = sort(items);
    let ghost sorted = left@;
    let mut out: Vec<usize> = Vec::new();
    assert(left@ =~= sorted.skip(0));
    while left.len() > 0
        invariant
            out@.len() + left@.len() == sorted.len(),
            left@ == sorted.skip(out@.len() as int),
            forall|i: int| 0 <= i < out@.len() ==> #[trigger] out@[i] == sorted[i].1,
        decreases left@.len(),
    {
        let (_, i) = left.remove(0);
        out.push(i);
        assert(left@ =~= sorted.skip(out@.len() as int));
    }
    assert forall|i: int| 0 <= i < out@.len() implies #[trigger] out@[i] == by[i] by {
        assert(sorted[i] == given[by[i]]);
    }
    assert(places(out@) =~= by);
    out
}

/// Every item is somewhere in the order.
pub proof fn every_item_is_placed(keys: Seq<KeyV>, i: int) -> (j: int)
    requires
        0 <= i < keys.len(),
    ensures
        0 <= j < order(keys).len(),
        order(keys)[j] == i,
    decreases keys.len(),
{
    let shorter = keys.drop_last();
    order_is_a_permutation(shorter);
    place_in_prefix(shorter, order(shorter), keys.last(), keys.last());
    assert(shorter.push(keys.last()) =~= keys);
    let at = place(keys, order(shorter), keys.last());
    if i == keys.len() - 1 {
        at
    } else {
        let k = every_item_is_placed(shorter, i);
        if k < at {
            k
        } else {
            k + 1
        }
    }
}

/// Items in the order of their keys are the same items.
pub proof fn order_keeps_every_item<T>(items: Seq<T>, keys: Seq<KeyV>)
    requires
        items.len() == keys.len(),
    ensures
        arranged(items, order(keys)).to_multiset() == items.to_multiset(),
    decreases keys.len(),
{
    broadcast use vstd::seq_lib::group_to_multiset_ensures;

    if keys.len() == 0 {
        assert(arranged(items, order(keys)) =~= items);
    } else {
        let shorter = keys.drop_last();
        let before = order(shorter);
        let n = keys.len() - 1;
        order_is_a_permutation(shorter);
        order_keeps_every_item(items.drop_last(), shorter);
        place_bounds(keys, before, keys.last());
        let at = place(keys, before, keys.last());
        let now = arranged(items, order(keys));
        let was = arranged(items.drop_last(), before);
        assert(now =~= was.insert(at, items[n]));
        assert(now.remove(at) =~= was);
        assert(now.to_multiset().remove(items[n]) =~= was.to_multiset());
        assert(now.contains(now[at]));
        assert(now.to_multiset() =~= was.to_multiset().insert(items[n]));
        assert(items =~= items.drop_last().push(items[n]));
    }
}

} // verus!
