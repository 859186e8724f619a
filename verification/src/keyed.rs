//! Maps kept as lists in the order of their keys.

use vstd::prelude::*;

use crate::sort;
use crate::sort::{Key, KeyV};

verus! {

/// What a map holds.
pub open spec fn entries<T: View>(m: Seq<(Key, T)>) -> Seq<(KeyV, T::V)> {
    m.map_values(|e: (Key, T)| (e.0@, e.1@))
}

/// The first place from `from` on whose key does not come before `k`.
pub open spec fn slot<V>(m: Seq<(KeyV, V)>, k: KeyV, from: int) -> int
    decreases m.len() - from,
{
    if 0 <= from < m.len() && sort::key_before(m[from].0, k) {
        slot(m, k, from + 1)
    } else {
        from
    }
}

/// What the map holds under `k`.
pub open spec fn get<V>(m: Seq<(KeyV, V)>, k: KeyV) -> Option<V> {
    let i = slot(m, k, 0);
    if 0 <= i < m.len() && m[i].0 == k {
        Some(m[i].1)
    } else {
        None
    }
}

/// The map with `v` under `k`.
pub open spec fn put<V>(m: Seq<(KeyV, V)>, k: KeyV, v: V) -> Seq<(KeyV, V)> {
    let i = slot(m, k, 0);
    if 0 <= i < m.len() && m[i].0 == k {
        m.update(i, (k, v))
    } else {
        m.insert(i, (k, v))
    }
}

/// Are the keys in order, each there once?
pub open spec fn in_order<V>(m: Seq<(KeyV, V)>) -> bool {
    forall|i: int, j: int|
        0 <= i < j < m.len() ==> sort::key_before((#[trigger] m[i]).0, (#[trigger] m[j]).0)
}

pub proof fn slot_bounds<V>(m: Seq<(KeyV, V)>, k: KeyV, from: int)
    requires
        0 <= from <= m.len(),
    ensures
        from <= slot(m, k, from) <= m.len(),
        forall|i: int| from <= i < slot(m, k, from) ==> sort::key_before((#[trigger] m[i]).0, k),
        slot(m, k, from) < m.len() ==> !sort::key_before(m[slot(m, k, from)].0, k),
    decreases m.len() - from,
{
    if from < m.len() && sort::key_before(m[from].0, k) {
        slot_bounds(m, k, from + 1);
    }
}

/// Where a key stands, or would.
fn find<T: View>(m: &Vec<(Key, T)>, k: &Key) -> (r: (usize, bool))
    ensures
        r.0 == slot(entries(m@), k@, 0) <= m@.len(),
        r.1 == (get(entries(m@), k@) is Some),
        r.1 ==> r.0 < m@.len() && m@[r.0 as int].0@ == k@ && get(entries(m@), k@) == Some(
            m@[r.0 as int].1@,
        ),
{
    let ghost all = entries(m@);
    let mut i: usize = 0;
    while i < m.len() && m[i].0.before(k)
        invariant
            i <= m@.len(),
            all == entries(m@),
            slot(all, k@, 0) == slot(all, k@, i as int),
        decreases m@.len() - i,
    {
        assert(all[i as int] == (m@[i as int].0@, m@[i as int].1@));
        i = i + 1;
    }
    if i < m.len() {
        assert(all[i as int] == (m@[i as int].0@, m@[i as int].1@));
        (i, m[i].0.same(k))
    } else {
        (i, false)
    }
}

/// What the map holds under `k`.
pub fn look<'a, T: View>(m: &'a Vec<(Key, T)>, k: &Key) -> (r: Option<&'a T>)
    ensures
        match r {
            Some(v) => get(entries(m@), k@) == Some(v@),
            None => get(entries(m@), k@) is None,
        },
{
    let (i, there) = find(m, k);
    if there {
        Some(&m[i].1)
    } else {
        None
    }
}

/// Puts `v` under `k`.
pub fn set<T: View>(m: &mut Vec<(Key, T)>, k: Key, v: T)
    ensures
        entries(final(m)@) == put(entries(old(m)@), k@, v@),
{
    let ghost all = entries(m@);
    let (i, there) = find(m, &k);
    let ghost (at, val) = (k@, v@);
    if there {
        m[i] = (k, v);
        assert(entries(m@) =~= all.update(i as int, (at, val)));
    } else {
        m.insert(i, (k, v));
        assert(entries(m@) =~= all.insert(i as int, (at, val)));
    }
}

/// Putting something under a key keeps the keys in order.
pub proof fn put_keeps_order<V>(m: Seq<(KeyV, V)>, k: KeyV, v: V)
    requires
        in_order(m),
    ensures
        in_order(put(m, k, v)),
{
    let i = slot(m, k, 0);
    slot_bounds(m, k, 0);
    let after = put(m, k, v);
    assert forall|a: int, b: int| 0 <= a < b < after.len() implies sort::key_before(
        (#[trigger] after[a]).0,
        (#[trigger] after[b]).0,
    ) by {
        if i < m.len() && m[i].0 == k {
            assert(sort::key_before(m[a].0, m[b].0));
        } else {
            let x = if a < i {
                a
            } else {
                a - 1
            };
            let y = if b < i {
                b
            } else {
                b - 1
            };
            if a != i && b != i {
                assert(sort::key_before(m[x].0, m[y].0));
            } else if b == i {
                assert(sort::key_before(m[a].0, k));
            } else {
                // `k` comes before what stood at its slot, and that before the rest.
                sort::keys_in_strict_order(m[i].0, k, k);
                if y > i {
                    assert(sort::key_before(m[i].0, m[y].0));
                    sort::keys_in_strict_order(k, m[i].0, m[y].0);
                }
            }
        }
    }
}

/// What was put under a key is found under it, and nothing else changes.
pub proof fn get_after_put<V>(m: Seq<(KeyV, V)>, k: KeyV, v: V, other: KeyV)
    requires
        in_order(m),
    ensures
        get(put(m, k, v), other) == (if other == k {
            Some(v)
        } else {
            get(m, other)
        }),
{
    let after = put(m, k, v);
    put_keeps_order(m, k, v);
    slot_bounds(m, k, 0);
    slot_bounds(m, other, 0);
    slot_bounds(after, other, 0);
    let i = slot(m, k, 0);
    let s = slot(m, other, 0);
    let t = slot(after, other, 0);
    let replaced = i < m.len() && m[i].0 == k;
    sort::keys_in_strict_order(k, k, k);
    sort::keys_in_strict_order(other, other, other);
    if other == k {
        assert(after[i].0 == k);
        if t < i {
            assert(after[t] == m[t]);
        }
        if t > i {
            assert(sort::key_before(after[i].0, other));
        }
    } else {
        if s < m.len() && m[s].0 == other {
            let at = if replaced || s < i {
                s
            } else {
                s + 1
            };
            assert(after[at].0 == other);
            if t > at {
                assert(sort::key_before(after[at].0, other));
            }
            if t < at {
                assert(sort::key_before(after[t].0, after[at].0));
            }
        }
        if t < after.len() && after[t].0 == other {
            let at = if replaced || t < i {
                t
            } else {
                t - 1
            };
            assert(t != i);
            assert(m[at].0 == other);
            if s > at {
                assert(sort::key_before(m[at].0, other));
            }
            if s < at {
                assert(sort::key_before(m[s].0, m[at].0));
            }
        }
    }
}

/// What holds of everything in a map and of what is put in it holds of
/// everything in it afterwards.
pub proof fn put_keeps<V>(m: Seq<(KeyV, V)>, k: KeyV, v: V, p: spec_fn(KeyV, V) -> bool)
    requires
        forall|i: int| 0 <= i < m.len() ==> p((#[trigger] m[i]).0, m[i].1),
        p(k, v),
    ensures
        forall|i: int|
            0 <= i < put(m, k, v).len() ==> p(
                (#[trigger] put(m, k, v)[i]).0,
                put(m, k, v)[i].1,
            ),
{
    let at = slot(m, k, 0);
    slot_bounds(m, k, 0);
    let after = put(m, k, v);
    assert forall|i: int| 0 <= i < after.len() implies p((#[trigger] after[i]).0, after[i].1) by {
        if at < m.len() && m[at].0 == k {
            if i != at {
                assert(after[i] == m[i]);
            }
        } else if i < at {
            assert(after[i] == m[i]);
        } else if i > at {
            assert(after[i] == m[i - 1]);
        }
    }
}

} // verus!
