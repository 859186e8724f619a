//! Counting what holds of some items.

use vstd::prelude::*;

verus! {

/// How many of `v` are so.
pub open spec fn tally<T>(v: Seq<T>, f: spec_fn(T) -> bool) -> nat
    decreases v.len(),
{
    if v.len() == 0 {
        0
    } else {
        tally(v.drop_last(), f) + (if f(v.last()) {
            1nat
        } else {
            0nat
        })
    }
}

/// How many of the numbers under `n` are so.
pub open spec fn count(f: spec_fn(int) -> bool, n: int) -> nat
    decreases n,
{
    if n <= 0 {
        0
    } else {
        count(f, n - 1) + (if f(n - 1) {
            1nat
        } else {
            0nat
        })
    }
}

pub(crate) proof fn tally_and_one<T>(v: Seq<T>, x: T, f: spec_fn(T) -> bool)
    ensures
        tally(v.push(x), f) == tally(v, f) + (if f(x) {
            1nat
        } else {
            0nat
        }),
{
    assert(v.push(x).drop_last() =~= v);
}

pub(crate) proof fn tally_together<T>(a: Seq<T>, b: Seq<T>, f: spec_fn(T) -> bool)
    ensures
        tally(a + b, f) == tally(a, f) + tally(b, f),
    decreases b.len(),
{
    if b.len() == 0 {
        assert(a + b =~= a);
    } else {
        tally_together(a, b.drop_last(), f);
        assert((a + b).drop_last() =~= a + b.drop_last());
    }
}

pub(crate) proof fn tally_with<T>(v: Seq<T>, at: int, x: T, f: spec_fn(T) -> bool)
    requires
        0 <= at <= v.len(),
    ensures
        tally(v.insert(at, x), f) == tally(v, f) + (if f(x) {
            1nat
        } else {
            0nat
        }),
{
    let (a, b) = (v.take(at), v.skip(at));
    assert(v =~= a + b);
    assert(v.insert(at, x) =~= a.push(x) + b);
    tally_together(a, b, f);
    tally_together(a.push(x), b, f);
    tally_and_one(a, x, f);
}

pub(crate) proof fn tally_without<T>(v: Seq<T>, at: int, f: spec_fn(T) -> bool)
    requires
        0 <= at < v.len(),
    ensures
        tally(v, f) == tally(v.remove(at), f) + (if f(v[at]) {
            1nat
        } else {
            0nat
        }),
{
    tally_with(v.remove(at), at, v[at], f);
    assert(v.remove(at).insert(at, v[at]) =~= v);
}

pub(crate) proof fn tally_by_place<T>(v: Seq<T>, f: spec_fn(T) -> bool, n: int)
    requires
        0 <= n <= v.len(),
    ensures
        tally(v.take(n), f) == count(|i: int| f(v[i]), n),
    decreases n,
{
    if n > 0 {
        tally_by_place(v, f, n - 1);
        assert(v.take(n).drop_last() =~= v.take(n - 1));
    } else {
        assert(v.take(0) =~= Seq::empty());
    }
}

pub(crate) proof fn count_within(f: spec_fn(int) -> bool, g: spec_fn(int) -> bool, n: int)
    requires
        forall|i: int| 0 <= i < n && #[trigger] f(i) ==> g(i),
    ensures
        count(f, n) <= count(g, n),
    decreases n,
{
    if n > 0 {
        count_within(f, g, n - 1);
    }
}

pub(crate) proof fn count_one_more(f: spec_fn(int) -> bool, g: spec_fn(int) -> bool, n: int, o: int)
    requires
        0 <= o < n,
        !f(o),
        g(o),
        forall|i: int| 0 <= i < n && i != o ==> #[trigger] g(i) == f(i),
    ensures
        count(g, n) == count(f, n) + 1,
    decreases n,
{
    if o == n - 1 {
        count_within(f, g, n - 1);
        count_within(g, f, n - 1);
    } else {
        count_one_more(f, g, n - 1, o);
    }
}

pub(crate) proof fn count_either(
    f: spec_fn(int) -> bool,
    g: spec_fn(int) -> bool,
    h: spec_fn(int) -> bool,
    n: int,
)
    requires
        forall|i: int| 0 <= i < n && #[trigger] f(i) ==> g(i) || h(i),
    ensures
        count(f, n) <= count(g, n) + count(h, n),
    decreases n,
{
    if n > 0 {
        count_either(f, g, h, n - 1);
    }
}

/// Is `o` so, and what one of the first `m` points at?
pub open spec fn pointed_at(h: spec_fn(int) -> Option<int>, q: spec_fn(int) -> bool, m: int, o: int) -> bool {
    q(o) && exists|p: int| 0 <= p < m && #[trigger] h(p) == Some(o)
}

pub(crate) proof fn count_pointed_at(
    h: spec_fn(int) -> Option<int>,
    q: spec_fn(int) -> bool,
    m: int,
    n: int,
)
    requires
        forall|p: int| 0 <= p < m ==> (#[trigger] h(p) matches Some(o) ==> 0 <= o < n),
        forall|p: int, r: int|
            0 <= p < r < m && #[trigger] h(p) is Some ==> h(p) != #[trigger] h(r),
    ensures
        count(|p: int| h(p) is Some && q(h(p)->0), m) == count(|o: int| pointed_at(h, q, m, o), n),
    decreases m,
{
    let now = |o: int| pointed_at(h, q, m, o);
    let points = |p: int| h(p) is Some && q(h(p)->0);
    if m <= 0 {
        count_within(now, |o: int| false, n);
        count_never(n);
    } else {
        count_pointed_at(h, q, m - 1, n);
        let before = |o: int| pointed_at(h, q, m - 1, o);
        assert forall|o: int| 0 <= o < n && h(m - 1) != Some(o) implies #[trigger] now(o)
            == before(o) by {
            if now(o) {
                let p = choose|p: int| 0 <= p < m && #[trigger] h(p) == Some(o);
                assert(0 <= p < m - 1);
            }
        }
        if points(m - 1) {
            let o = h(m - 1)->0;
            assert(!before(o)) by {
                if before(o) {
                    let p = choose|p: int| 0 <= p < m - 1 && #[trigger] h(p) == Some(o);
                    assert(h(p) != h(m - 1));
                }
            }
            assert(now(o));
            count_one_more(before, now, n, o);
        } else {
            assert forall|o: int| 0 <= o < n implies #[trigger] now(o) == before(o) by {
                if h(m - 1) == Some(o) {
                    assert(!q(o));
                }
            }
            count_within(now, before, n);
            count_within(before, now, n);
        }
    }
}

pub(crate) proof fn count_never(n: int)
    ensures
        count(|o: int| false, n) == 0,
    decreases n,
{
    if n > 0 {
        count_never(n - 1);
    }
}

pub(crate) proof fn count_apart(
    f: spec_fn(int) -> bool,
    g: spec_fn(int) -> bool,
    h: spec_fn(int) -> bool,
    n: int,
)
    requires
        forall|i: int| 0 <= i < n && #[trigger] f(i) ==> h(i) && !g(i),
        forall|i: int| 0 <= i < n && #[trigger] g(i) ==> h(i),
    ensures
        count(f, n) + count(g, n) <= count(h, n),
    decreases n,
{
    if n > 0 {
        count_apart(f, g, h, n - 1);
    }
}

/// Are the two lists of the same items, in whatever order?
pub open spec fn same_items<T>(a: Seq<T>, b: Seq<T>) -> bool {
    a.to_multiset() == b.to_multiset()
}

pub(crate) proof fn tally_of_the_same<T>(a: Seq<T>, b: Seq<T>, f: spec_fn(T) -> bool)
    requires
        same_items(a, b),
    ensures
        tally(a, f) == tally(b, f),
        a.len() == b.len(),
    decreases a.len(),
{
    a.to_multiset_ensures();
    b.to_multiset_ensures();
    if a.len() > 0 {
        let x = a.last();
        assert(a[a.len() - 1] == x);
        assert(a.to_multiset().count(x) > 0);
        assert(b.to_multiset().count(x) > 0);
        let j = choose|j: int| 0 <= j < b.len() && b[j] == x;
        assert(a.remove(a.len() - 1) =~= a.drop_last());
        assert(a.remove(a.len() - 1).to_multiset() =~= a.to_multiset().remove(x));
        assert(b.remove(j).to_multiset() =~= b.to_multiset().remove(x));
        tally_of_the_same(a.drop_last(), b.remove(j), f);
        tally_without(b, j, f);
    }
}

pub(crate) proof fn found_in_the_same<T>(a: Seq<T>, b: Seq<T>, i: int) -> (j: int)
    requires
        same_items(a, b),
        0 <= i < a.len(),
    ensures
        0 <= j < b.len(),
        b[j] == a[i],
{
    a.to_multiset_ensures();
    b.to_multiset_ensures();
    assert(a.contains(a[i]));
    assert(a.to_multiset().count(a[i]) > 0);
    assert(b.to_multiset().count(a[i]) > 0);
    choose|j: int| 0 <= j < b.len() && b[j] == a[i]
}

} // verus!
