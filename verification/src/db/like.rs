//! Patterns as `LIKE` reads them: `%` stands for any text, `_` for any
//! character, and a letter of ASCII for itself in either case.

use vstd::prelude::*;

use crate::text;

verus! {

/// Is `s` like the pattern?
pub open spec fn like(pattern: Seq<char>, s: Seq<char>) -> bool
    decreases pattern.len() + s.len(),
{
    if pattern.len() == 0 {
        s.len() == 0
    } else if pattern[0] == '%' {
        like(pattern.skip(1), s) || (s.len() > 0 && like(pattern, s.skip(1)))
    } else {
        &&& s.len() > 0
        &&& pattern[0] == '_' || text::lower(pattern[0]) == text::lower(s[0])
        &&& like(pattern.skip(1), s.skip(1))
    }
}

/// The pattern of the texts that hold what is like `inner`.
pub open spec fn around(inner: Seq<char>) -> Seq<char> {
    seq!['%'] + inner + seq!['%']
}

fn is_like(pattern: &[char], i: usize, s: &[char], j: usize) -> (r: bool)
    requires
        i <= pattern@.len(),
        j <= s@.len(),
    ensures
        r == like(pattern@.skip(i as int), s@.skip(j as int)),
    decreases pattern@.len() - i + s@.len() - j,
{
    let ghost p = pattern@.skip(i as int);
    let ghost t = s@.skip(j as int);
    if i == pattern.len() {
        return j == s.len();
    }
    assert(p[0] == pattern@[i as int]);
    assert(p.skip(1) =~= pattern@.skip(i as int + 1));
    if j < s.len() {
        assert(t[0] == s@[j as int]);
        assert(t.skip(1) =~= s@.skip(j as int + 1));
    }
    let c = pattern[i];
    if c == '%' {
        is_like(pattern, i + 1, s, j) || (j < s.len() && is_like(pattern, i, s, j + 1))
    } else {
        j < s.len() && (c == '_' || text::lower_char(c) == text::lower_char(s[j])) && is_like(
            pattern,
            i + 1,
            s,
            j + 1,
        )
    }
}

/// Does `s` hold what is like `inner`?
pub fn holds_like(s: &str, inner: &str) -> (r: bool)
    ensures
        r == like(around(inner@), s@),
{
    let mut pattern: Vec<char> = Vec::new();
    pattern.push('%');
    let mut given = text::chars(inner);
    pattern.append(&mut given);
    pattern.push('%');
    let cs = text::chars(s);
    assert(pattern@ =~= around(inner@));
    assert(pattern@.skip(0) =~= pattern@);
    assert(cs@.skip(0) =~= cs@);
    is_like(pattern.as_slice(), 0, cs.as_slice(), 0)
}

proof fn like_itself(p: Seq<char>)
    ensures
        like(p + seq!['%'], p),
    decreases p.len(),
{
    let whole = p + seq!['%'];
    if p.len() == 0 {
        assert(whole.skip(1) =~= Seq::empty());
        assert(like(whole.skip(1), p));
    } else {
        like_itself(p.skip(1));
        assert(whole.skip(1) =~= p.skip(1) + seq!['%']);
        if p[0] == '%' {
            assert(like(whole, p.skip(1)));
        }
    }
}

/// A text that ends in `inner` holds what is like it.
pub proof fn what_ends_in_it_is_like_it(before: Seq<char>, inner: Seq<char>)
    ensures
        like(around(inner), before + inner),
    decreases before.len(),
{
    let pattern = around(inner);
    let s = before + inner;
    assert(pattern.skip(1) =~= inner + seq!['%']);
    if before.len() == 0 {
        like_itself(inner);
        assert(s =~= inner);
    } else {
        what_ends_in_it_is_like_it(before.skip(1), inner);
        assert(s.skip(1) =~= before.skip(1) + inner);
    }
}

proof fn any_text_is_like(s: Seq<char>)
    ensures
        like(seq!['%'], s),
    decreases s.len(),
{
    if s.len() == 0 {
        assert(seq!['%'].skip(1) =~= Seq::empty());
        assert(like(seq!['%'].skip(1), s));
    } else {
        any_text_is_like(s.skip(1));
    }
}

/// Every text holds what is like the empty one.
pub proof fn every_text_holds_nothing(s: Seq<char>)
    ensures
        like(around(Seq::empty()), s),
{
    any_text_is_like(s);
    assert(around(Seq::empty()).skip(1) =~= seq!['%']);
}

} // verus!
