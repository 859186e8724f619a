//! Text as a sequence of characters: the splitting, trimming and searching
//! that statements and descriptions are read with.

use vstd::prelude::*;

verus! {

/// `String::push` adds one character at the end.
pub assume_specification[ String::push ](s: &mut String, c: char)
    ensures
        final(s)@ == old(s)@.push(c),
;

/// A kind of character.
#[derive(Clone, Copy, PartialEq, Eq, Structural, Debug)]
pub enum Class {
    /// Unicode's `White_Space`.
    White,
    /// Anything but `White_Space`.
    Solid,
    /// Anything but a control code (U+0000..=U+001F, U+007F..=U+009F).
    Printed,
    /// `0` to `9`.
    Digit,
    /// `A` to `Z`.
    Upper,
    /// A leading zero.
    Zero,
    /// The mask character.
    Star,
    /// What an account number is printed with: digits and mask characters.
    Masked,
    /// What a compact date range is printed with: digits and `-`.
    Range,
    /// Anything a slash date does not hold.
    OutsideDate,
    /// Anything but a thousands separator.
    NotComma,
    /// Anything but `_`, `-` and a space.
    Joined,
    /// Anything but `;`, a space and a tab.
    Tag,
}

pub open spec fn white(c: char) -> bool {
    ||| '\u{9}' <= c <= '\u{d}'
    ||| c == ' '
    ||| c == '\u{85}'
    ||| c == '\u{a0}'
    ||| c == '\u{1680}'
    ||| '\u{2000}' <= c <= '\u{200a}'
    ||| c == '\u{2028}'
    ||| c == '\u{2029}'
    ||| c == '\u{202f}'
    ||| c == '\u{205f}'
    ||| c == '\u{3000}'
}

pub open spec fn digit(c: char) -> bool {
    '0' <= c <= '9'
}

/// Is `c` of the class `k`?
pub open spec fn of_class(k: Class, c: char) -> bool {
    match k {
        Class::White => white(c),
        Class::Solid => !white(c),
        Class::Printed => !(c <= '\u{1f}' || '\u{7f}' <= c <= '\u{9f}'),
        Class::Digit => digit(c),
        Class::Upper => 'A' <= c <= 'Z',
        Class::Zero => c == '0',
        Class::Star => c == '*',
        Class::Masked => digit(c) || c == '*',
        Class::Range => digit(c) || c == '-',
        Class::OutsideDate => !(digit(c) || c == '/'),
        Class::NotComma => c != ',',
        Class::Joined => !(c == '_' || c == '-' || c == ' '),
        Class::Tag => !(c == ';' || c == ' ' || c == '\t'),
    }
}

fn is_white(c: char) -> (r: bool)
    ensures
        r == white(c),
{
    ('\u{9}' <= c && c <= '\u{d}') || c == ' ' || c == '\u{85}' || c == '\u{a0}' || c
        == '\u{1680}' || ('\u{2000}' <= c && c <= '\u{200a}') || c == '\u{2028}' || c == '\u{2029}'
        || c == '\u{202f}' || c == '\u{205f}' || c == '\u{3000}'
}

fn is_digit(c: char) -> (r: bool)
    ensures
        r == digit(c),
{
    '0' <= c && c <= '9'
}

pub fn is_of(k: Class, c: char) -> (r: bool)
    ensures
        r == of_class(k, c),
{
    match k {
        Class::White => is_white(c),
        Class::Solid => !is_white(c),
        Class::Printed => !(c <= '\u{1f}' || ('\u{7f}' <= c && c <= '\u{9f}')),
        Class::Digit => is_digit(c),
        Class::Upper => 'A' <= c && c <= 'Z',
        Class::Zero => c == '0',
        Class::Star => c == '*',
        Class::Masked => is_digit(c) || c == '*',
        Class::Range => is_digit(c) || c == '-',
        Class::OutsideDate => !(is_digit(c) || c == '/'),
        Class::NotComma => c != ',',
        Class::Joined => !(c == '_' || c == '-' || c == ' '),
        Class::Tag => !(c == ';' || c == ' ' || c == '\t'),
    }
}

/// The texts of `v`.
pub open spec fn texts(v: Seq<String>) -> Seq<Seq<char>> {
    v.map_values(|s: String| s@)
}

/// The text of an option.
pub open spec fn opt(s: Option<String>) -> Option<Seq<char>> {
    match s {
        Some(s) => Some(s@),
        None => None,
    }
}

/// The characters of `s`.
pub fn chars(s: &str) -> (r: Vec<char>)
    ensures
        r@ == s@,
{
    let mut out: Vec<char> = Vec::new();
    for c in it: s.chars()
        invariant
            out@ == it.seq().take(it.index()),
            it.seq() == s@,
    {
        out.push(c);
    }
    out
}

/// `cs` as a string.
pub fn string_of(cs: &[char]) -> (r: String)
    ensures
        r@ == cs@,
{
    let mut out: String = String::new();
    let mut i: usize = 0;
    while i < cs.len()
        invariant
            i <= cs@.len(),
            out@ == cs@.take(i as int),
        decreases cs@.len() - i,
    {
        out.push(cs[i]);
        assert(cs@.take(i as int + 1) =~= cs@.take(i as int).push(cs@[i as int]));
        i = i + 1;
    }
    assert(cs@.take(i as int) =~= cs@);
    out
}

/// Are the characters of `a` those of `b`?
pub fn same(a: &[char], b: &[char]) -> (r: bool)
    ensures
        r == (a@ == b@),
{
    if a.len() != b.len() {
        return false;
    }
    let mut i: usize = 0;
    while i < a.len()
        invariant
            i <= a@.len(),
            a@.len() == b@.len(),
            forall|j: int| 0 <= j < i ==> a@[j] == b@[j],
        decreases a@.len() - i,
    {
        if a[i] != b[i] {
            assert(a@[i as int] != b@[i as int]);
            return false;
        }
        i = i + 1;
    }
    assert(a@ =~= b@);
    true
}

/// Do `a` and `b` read the same?
pub fn same_text(a: &str, b: &str) -> (r: bool)
    ensures
        r == (a@ == b@),
{
    let x = chars(a);
    let y = chars(b);
    same(x.as_slice(), y.as_slice())
}

/// `a` comes before `b`, by the first character they differ in.
pub open spec fn before(a: Seq<char>, b: Seq<char>) -> bool
    decreases a.len(),
{
    if b.len() == 0 {
        false
    } else if a.len() == 0 {
        true
    } else if a[0] != b[0] {
        a[0] < b[0]
    } else {
        before(a.skip(1), b.skip(1))
    }
}

/// Does `a` come before `b`?
pub fn comes_before(a: &str, b: &str) -> (r: bool)
    ensures
        r == before(a@, b@),
{
    let x = chars(a);
    let y = chars(b);
    let mut i: usize = 0;
    assert(x@.skip(0) =~= x@ && y@.skip(0) =~= y@);
    loop
        invariant
            i <= x@.len(),
            i <= y@.len(),
            before(x@, y@) == before(x@.skip(i as int), y@.skip(i as int)),
            x@ == a@,
            y@ == b@,
        decreases x@.len() - i,
    {
        if i >= y.len() {
            return false;
        }
        if i >= x.len() {
            return true;
        }
        if x[i] != y[i] {
            return x[i] < y[i];
        }
        assert(x@.skip(i as int).skip(1) =~= x@.skip(i as int + 1));
        assert(y@.skip(i as int).skip(1) =~= y@.skip(i as int + 1));
        i = i + 1;
    }
}

/// `s` without the characters at its start that are of class `k`.
pub open spec fn trimmed_start(s: Seq<char>, k: Class) -> Seq<char>
    decreases s.len(),
{
    if s.len() > 0 && of_class(k, s[0]) {
        trimmed_start(s.skip(1), k)
    } else {
        s
    }
}

/// `s` without the characters at its end that are of class `k`.
pub open spec fn trimmed_end(s: Seq<char>, k: Class) -> Seq<char>
    decreases s.len(),
{
    if s.len() > 0 && of_class(k, s.last()) {
        trimmed_end(s.drop_last(), k)
    } else {
        s
    }
}

/// `s` without the characters at either end that are of class `k`.
pub open spec fn trimmed(s: Seq<char>, k: Class) -> Seq<char> {
    trimmed_end(trimmed_start(s, k), k)
}

/// Where `s` starts once the characters of class `k` at its start are cut.
fn start_after(s: &[char], k: Class) -> (r: usize)
    ensures
        r <= s@.len(),
        s@.skip(r as int) == trimmed_start(s@, k),
{
    let mut i: usize = 0;
    assert(s@.skip(0) =~= s@);
    while i < s.len() && is_of(k, s[i])
        invariant
            i <= s@.len(),
            trimmed_start(s@, k) == trimmed_start(s@.skip(i as int), k),
        decreases s@.len() - i,
    {
        assert(s@.skip(i as int).skip(1) =~= s@.skip(i as int + 1));
        i = i + 1;
    }
    i
}

/// Where `s` ends once the characters of class `k` at its end are cut.
fn end_before(s: &[char], from: usize, k: Class) -> (r: usize)
    requires
        from <= s@.len(),
    ensures
        from <= r <= s@.len(),
        s@.subrange(from as int, r as int) == trimmed_end(s@.skip(from as int), k),
{
    let mut n: usize = s.len();
    assert(s@.subrange(from as int, n as int) =~= s@.skip(from as int));
    while n > from && is_of(k, s[n - 1])
        invariant
            from <= n <= s@.len(),
            trimmed_end(s@.skip(from as int), k) == trimmed_end(
                s@.subrange(from as int, n as int),
                k,
            ),
        decreases n,
    {
        assert(s@.subrange(from as int, n as int).drop_last() =~= s@.subrange(
            from as int,
            n - 1,
        ));
        n = n - 1;
    }
    n
}

/// The characters `from..to` of `cs`.
pub fn part(cs: &[char], from: usize, to: usize) -> (r: Vec<char>)
    requires
        from <= to <= cs@.len(),
    ensures
        r@ == cs@.subrange(from as int, to as int),
{
    let mut out: Vec<char> = Vec::new();
    let mut i: usize = from;
    while i < to
        invariant
            from <= i <= to <= cs@.len(),
            out@ == cs@.subrange(from as int, i as int),
        decreases to - i,
    {
        out.push(cs[i]);
        assert(cs@.subrange(from as int, i as int + 1) =~= cs@.subrange(
            from as int,
            i as int,
        ).push(cs@[i as int]));
        i = i + 1;
    }
    out
}

/// `s` without the characters at its start that are of class `k`.
pub fn trim_start(s: &str, k: Class) -> (r: String)
    ensures
        r@ == trimmed_start(s@, k),
{
    let cs = chars(s);
    let from: usize = start_after(cs.as_slice(), k);
    let kept = part(cs.as_slice(), from, cs.len());
    assert(kept@ =~= cs@.skip(from as int));
    string_of(kept.as_slice())
}

/// `s` without the characters at either end that are of class `k`.
pub fn trim(s: &str, k: Class) -> (r: String)
    ensures
        r@ == trimmed(s@, k),
{
    let cs = chars(s);
    let from: usize = start_after(cs.as_slice(), k);
    let to: usize = end_before(cs.as_slice(), from, k);
    let kept = part(cs.as_slice(), from, to);
    string_of(kept.as_slice())
}

/// The characters of `s` that are of class `k`.
pub open spec fn kept(s: Seq<char>, k: Class) -> Seq<char>
    decreases s.len(),
{
    if s.len() == 0 {
        Seq::empty()
    } else if of_class(k, s.last()) {
        kept(s.drop_last(), k).push(s.last())
    } else {
        kept(s.drop_last(), k)
    }
}

/// The characters of `s` that are of class `k`.
pub fn keep(s: &str, k: Class) -> (r: String)
    ensures
        r@ == kept(s@, k),
{
    let cs = chars(s);
    let mut out: String = String::new();
    let mut i: usize = 0;
    while i < cs.len()
        invariant
            i <= cs@.len(),
            out@ == kept(cs@.take(i as int), k),
        decreases cs@.len() - i,
    {
        assert(cs@.take(i as int + 1).drop_last() =~= cs@.take(i as int));
        if is_of(k, cs[i]) {
            out.push(cs[i]);
        }
        i = i + 1;
    }
    assert(cs@.take(i as int) =~= cs@);
    out
}

/// Are all characters of `s` of class `k`?
pub fn all_of(s: &str, k: Class) -> (r: bool)
    ensures
        r == (forall|i: int| 0 <= i < s@.len() ==> of_class(k, #[trigger] s@[i])),
{
    let cs = chars(s);
    let mut i: usize = 0;
    while i < cs.len()
        invariant
            i <= cs@.len(),
            cs@ == s@,
            forall|j: int| 0 <= j < i ==> of_class(k, #[trigger] s@[j]),
        decreases cs@.len() - i,
    {
        if !is_of(k, cs[i]) {
            assert(!of_class(k, s@[i as int]));
            return false;
        }
        i = i + 1;
    }
    true
}

/// The longest runs of characters of class `k` in `s`, in order.
pub open spec fn runs(s: Seq<char>, k: Class) -> Seq<Seq<char>>
    decreases s.len(),
{
    if s.len() == 0 {
        Seq::empty()
    } else {
        let before = runs(s.drop_last(), k);
        if !of_class(k, s.last()) {
            before
        } else if s.len() > 1 && of_class(k, s[s.len() - 2]) {
            before.drop_last().push(before.last().push(s.last()))
        } else {
            before.push(seq![s.last()])
        }
    }
}

proof fn runs_end_open(s: Seq<char>, k: Class)
    requires
        s.len() > 0,
        of_class(k, s.last()),
    ensures
        runs(s, k).len() > 0,
    decreases s.len(),
{
    if s.len() > 1 && of_class(k, s[s.len() - 2]) {
        runs_end_open(s.drop_last(), k);
    }
}

/// The longest runs of characters of class `k` in `s`, in order.
pub fn split_runs(s: &str, k: Class) -> (r: Vec<String>)
    ensures
        texts(r@) == runs(s@, k),
{
    let cs = chars(s);
    let mut out: Vec<String> = Vec::new();
    let mut i: usize = 0;
    while i < cs.len()
        invariant
            i <= cs@.len(),
            texts(out@) == runs(cs@.take(i as int), k),
        decreases cs@.len() - i,
    {
        let ghost before = out@;
        let ghost seen = cs@.take(i as int);
        assert(cs@.take(i as int + 1).drop_last() =~= seen);
        if is_of(k, cs[i]) {
            if i > 0 && is_of(k, cs[i - 1]) {
                proof {
                    runs_end_open(seen, k);
                    assert(texts(before).len() == before.len());
                }
                let mut last: String = out.pop().unwrap();
                assert(last@ == texts(before).last());
                last.push(cs[i]);
                out.push(last);
                assert(texts(out@) =~= texts(before).drop_last().push(last@));
            } else {
                let mut run: String = String::new();
                run.push(cs[i]);
                assert(run@ =~= seq![cs@[i as int]]);
                out.push(run);
                assert(texts(out@) =~= texts(before).push(run@));
            }
        }
        i = i + 1;
    }
    assert(cs@.take(i as int) =~= cs@);
    out
}

/// The words of `s`, apart from the white space around them.
pub open spec fn words(s: Seq<char>) -> Seq<Seq<char>> {
    runs(s, Class::Solid)
}

/// The words of `s`, apart from the white space around them.
pub fn split_words(s: &str) -> (r: Vec<String>)
    ensures
        texts(r@) == words(s@),
{
    split_runs(s, Class::Solid)
}

/// `parts` one after the other, `gap` between them.
pub open spec fn joined(parts: Seq<Seq<char>>, gap: Seq<char>) -> Seq<char>
    decreases parts.len(),
{
    if parts.len() == 0 {
        Seq::empty()
    } else if parts.len() == 1 {
        parts[0]
    } else {
        joined(parts.drop_last(), gap) + gap + parts.last()
    }
}

/// `parts[from..to]` one after the other, `gap` between them.
pub fn join(parts: &[String], from: usize, to: usize, gap: &str) -> (r: String)
    requires
        from <= to <= parts@.len(),
    ensures
        r@ == joined(texts(parts@).subrange(from as int, to as int), gap@),
{
    let mut out: String = String::new();
    let mut i: usize = from;
    let ghost all = texts(parts@);
    while i < to
        invariant
            from <= i <= to <= parts@.len(),
            all == texts(parts@),
            out@ == joined(all.subrange(from as int, i as int), gap@),
        decreases to - i,
    {
        assert(all.subrange(from as int, i as int + 1).drop_last() =~= all.subrange(
            from as int,
            i as int,
        ));
        if i > from {
            out.append(gap);
        }
        out.append(parts[i].as_str());
        assert(out@ =~= joined(all.subrange(from as int, i as int + 1), gap@));
        i = i + 1;
    }
    out
}

/// The parts one after the other, `gap` between them.
pub fn join_all(parts: &Vec<String>, gap: &str) -> (r: String)
    ensures
        r@ == joined(texts(parts@), gap@),
{
    assert(texts(parts@).subrange(0, parts@.len() as int) =~= texts(parts@));
    join(parts.as_slice(), 0, parts.len(), gap)
}

/// Does `pat` stand in `s` at `i`?
pub open spec fn stands_at(s: Seq<char>, pat: Seq<char>, i: int) -> bool {
    0 <= i && i + pat.len() <= s.len() && s.subrange(i, i + pat.len()) == pat
}

/// The first place at or after `from` where `pat` stands in `s`.
pub open spec fn found(s: Seq<char>, pat: Seq<char>, from: int) -> Option<int>
    decreases s.len() - from + 1,
{
    if from < 0 || from + pat.len() > s.len() {
        None
    } else if stands_at(s, pat, from) {
        Some(from)
    } else {
        found(s, pat, from + 1)
    }
}

fn matches_at(s: &[char], pat: &[char], at: usize) -> (r: bool)
    requires
        at + pat@.len() <= s@.len(),
    ensures
        r == stands_at(s@, pat@, at as int),
{
    let n: usize = s.len();
    let mut i: usize = 0;
    while i < pat.len()
        invariant
            i <= pat@.len(),
            at + pat@.len() <= s@.len() == n,
            forall|j: int| 0 <= j < i ==> s@[at + j] == #[trigger] pat@[j],
        decreases pat@.len() - i,
    {
        if s[at + i] != pat[i] {
            assert(s@.subrange(at as int, at + pat@.len())[i as int] != pat@[i as int]);
            return false;
        }
        i = i + 1;
    }
    assert(s@.subrange(at as int, at + pat@.len()) =~= pat@);
    true
}

fn find_from(s: &[char], pat: &[char], from: usize) -> (r: Option<usize>)
    requires
        from <= s@.len(),
    ensures
        match r {
            Some(i) => found(s@, pat@, from as int) == Some(i as int) && from <= i && i
                + pat@.len() <= s@.len(),
            None => found(s@, pat@, from as int) is None,
        },
{
    let mut i: usize = from;
    while pat.len() <= s.len() - i
        invariant
            from <= i <= s@.len(),
            found(s@, pat@, from as int) == found(s@, pat@, i as int),
        decreases s@.len() - i,
    {
        if matches_at(s, pat, i) {
            return Some(i);
        }
        if i == s.len() {
            assert(found(s@, pat@, i as int + 1) is None);
            return None;
        }
        i = i + 1;
    }
    None
}

/// The first place where `pat` stands in `s`.
pub open spec fn place(s: Seq<char>, pat: Seq<char>) -> Option<int> {
    found(s, pat, 0)
}

/// Does `pat` stand anywhere in `s`?
pub open spec fn holds(s: Seq<char>, pat: Seq<char>) -> bool {
    place(s, pat) is Some
}

/// Does `pat` stand anywhere in `s`?
pub fn contains(s: &str, pat: &str) -> (r: bool)
    ensures
        r == holds(s@, pat@),
{
    let cs = chars(s);
    let ps = chars(pat);
    find_from(cs.as_slice(), ps.as_slice(), 0).is_some()
}

/// What stands before and after the first `pat` in `s`.
pub open spec fn parted(s: Seq<char>, pat: Seq<char>) -> Option<(Seq<char>, Seq<char>)> {
    match place(s, pat) {
        Some(i) => Some((s.take(i), s.skip(i + pat.len()))),
        None => None,
    }
}

/// What stands before and after the first `pat` in `s`.
pub fn split_once(s: &str, pat: &str) -> (r: Option<(String, String)>)
    ensures
        match r {
            Some((a, b)) => parted(s@, pat@) == Some((a@, b@)),
            None => parted(s@, pat@) is None,
        },
{
    let cs = chars(s);
    let ps = chars(pat);
    match find_from(cs.as_slice(), ps.as_slice(), 0) {
        Some(i) => {
            let n: usize = cs.len();
            let a = part(cs.as_slice(), 0, i);
            let b = part(cs.as_slice(), i + ps.len(), cs.len());
            assert(a@ =~= s@.take(i as int));
            assert(b@ =~= s@.skip(i + pat@.len()));
            Some((string_of(a.as_slice()), string_of(b.as_slice())))
        },
        None => None,
    }
}

/// The last place before `to` where `pat` stands in `s`.
pub open spec fn found_back(s: Seq<char>, pat: Seq<char>, to: int) -> Option<int>
    decreases to,
{
    if to <= 0 {
        None
    } else if stands_at(s, pat, to - 1) {
        Some(to - 1)
    } else {
        found_back(s, pat, to - 1)
    }
}

/// What stands before and after the last `pat` in `s`.
pub open spec fn parted_back(s: Seq<char>, pat: Seq<char>) -> Option<(Seq<char>, Seq<char>)> {
    match found_back(s, pat, s.len() as int) {
        Some(i) => Some((s.take(i), s.skip(i + pat.len()))),
        None => None,
    }
}

/// What stands before and after the last `pat` in `s`.
pub fn split_once_back(s: &str, pat: &str) -> (r: Option<(String, String)>)
    requires
        pat@.len() > 0,
    ensures
        match r {
            Some((a, b)) => parted_back(s@, pat@) == Some((a@, b@)),
            None => parted_back(s@, pat@) is None,
        },
{
    let cs = chars(s);
    let ps = chars(pat);
    let mut to: usize = cs.len();
    while to > 0
        invariant
            to <= cs@.len(),
            cs@ == s@,
            ps@ == pat@,
            pat@.len() > 0,
            found_back(s@, pat@, s@.len() as int) == found_back(s@, pat@, to as int),
        decreases to,
    {
        let at: usize = to - 1;
        if ps.len() <= cs.len() - at && matches_at(cs.as_slice(), ps.as_slice(), at) {
            let a = part(cs.as_slice(), 0, at);
            let b = part(cs.as_slice(), at + ps.len(), cs.len());
            assert(a@ =~= s@.take(at as int));
            assert(b@ =~= s@.skip(at + pat@.len()));
            return Some((string_of(a.as_slice()), string_of(b.as_slice())));
        }
        to = at;
    }
    None
}

/// Does `s` start with `pat`?
pub open spec fn starts(s: Seq<char>, pat: Seq<char>) -> bool {
    stands_at(s, pat, 0)
}

/// Does `s` start with `pat`?
pub fn starts_with(s: &str, pat: &str) -> (r: bool)
    ensures
        r == starts(s@, pat@),
{
    let cs = chars(s);
    let ps = chars(pat);
    ps.len() <= cs.len() && matches_at(cs.as_slice(), ps.as_slice(), 0)
}

/// Does `s` end with `pat`?
pub open spec fn ends(s: Seq<char>, pat: Seq<char>) -> bool {
    stands_at(s, pat, s.len() - pat.len())
}

/// Does `s` end with `pat`?
pub fn ends_with(s: &str, pat: &str) -> (r: bool)
    ensures
        r == ends(s@, pat@),
{
    let cs = chars(s);
    let ps = chars(pat);
    ps.len() <= cs.len() && matches_at(cs.as_slice(), ps.as_slice(), cs.len() - ps.len())
}

/// What follows `pat` at the start of `s`.
pub open spec fn stripped(s: Seq<char>, pat: Seq<char>) -> Option<Seq<char>> {
    if starts(s, pat) {
        Some(s.skip(pat.len() as int))
    } else {
        None
    }
}

/// What follows `pat` at the start of `s`.
pub fn strip_prefix(s: &str, pat: &str) -> (r: Option<String>)
    ensures
        match r {
            Some(rest) => stripped(s@, pat@) == Some(rest@),
            None => stripped(s@, pat@) is None,
        },
{
    let cs = chars(s);
    let ps = chars(pat);
    if ps.len() <= cs.len() && matches_at(cs.as_slice(), ps.as_slice(), 0) {
        let rest = part(cs.as_slice(), ps.len(), cs.len());
        assert(rest@ =~= s@.skip(pat@.len() as int));
        Some(string_of(rest.as_slice()))
    } else {
        None
    }
}

/// `s` without a carriage return at its end.
pub open spec fn chomped(s: Seq<char>) -> Seq<char> {
    if s.len() > 0 && s.last() == '\r' {
        s.drop_last()
    } else {
        s
    }
}

/// The lines of `s`, ended by a newline or a carriage return and a newline.
pub open spec fn lines(s: Seq<char>) -> Seq<Seq<char>>
    decreases s.len(),
{
    if s.len() == 0 {
        Seq::empty()
    } else {
        match place(s, seq!['\n']) {
            None => seq![s],
            Some(i) => if 0 <= i < s.len() {
                seq![chomped(s.take(i))] + lines(s.skip(i + 1))
            } else {
                Seq::empty()
            },
        }
    }
}

proof fn found_in_rest(s: Seq<char>, pat: Seq<char>, at: int, from: int)
    requires
        0 <= at <= s.len(),
        0 <= from,
    ensures
        match found(s, pat, at + from) {
            Some(i) => found(s.skip(at), pat, from) == Some(i - at) && at + from <= i && i
                + pat.len() <= s.len(),
            None => found(s.skip(at), pat, from) is None,
        },
    decreases s.len() - at - from + 1,
{
    if at + from + pat.len() <= s.len() {
        assert(s.skip(at).subrange(from, from + pat.len()) =~= s.subrange(
            at + from,
            at + from + pat.len(),
        ));
        if !stands_at(s, pat, at + from) {
            found_in_rest(s, pat, at, from + 1);
        }
    }
}

/// The lines of `s`, ended by a newline or a carriage return and a newline.
pub fn split_lines(s: &str) -> (r: Vec<String>)
    ensures
        texts(r@) == lines(s@),
{
    let cs = chars(s);
    let newline: Vec<char> = vec!['\n'];
    assert(newline@ =~= seq!['\n']);
    let mut out: Vec<String> = Vec::new();
    let mut at: usize = 0;
    assert(cs@.skip(0) =~= cs@);
    assert(texts(out@) + lines(cs@) =~= lines(cs@));
    while at < cs.len()
        invariant
            at <= cs@.len(),
            cs@ == s@,
            newline@ == seq!['\n'],
            texts(out@) + lines(cs@.skip(at as int)) == lines(s@),
        decreases cs@.len() - at,
    {
        let ghost before = texts(out@);
        let ghost rest = cs@.skip(at as int);
        proof {
            found_in_rest(cs@, seq!['\n'], at as int, 0);
        }
        match find_from(cs.as_slice(), newline.as_slice(), at) {
            None => {
                let line = string_of(part(cs.as_slice(), at, cs.len()).as_slice());
                assert(line@ =~= rest);
                out.push(line);
                at = cs.len();
                assert(cs@.skip(at as int) =~= Seq::empty());
                assert(texts(out@) =~= before.push(rest));
                assert(texts(out@) + lines(cs@.skip(at as int)) =~= before + seq![rest]);
            },
            Some(i) => {
                let mut to: usize = i;
                if i > at && cs[i - 1] == '\r' {
                    to = i - 1;
                }
                let line = string_of(part(cs.as_slice(), at, to).as_slice());
                assert(rest.take(i - at) =~= cs@.subrange(at as int, i as int));
                assert(line@ =~= chomped(rest.take(i - at)));
                out.push(line);
                assert(rest.skip(i - at + 1) =~= cs@.skip(i as int + 1));
                at = i + 1;
                assert(texts(out@) =~= before.push(line@));
                assert(texts(out@) + lines(cs@.skip(at as int)) =~= before + lines(rest));
            },
        }
    }
    assert(texts(out@) + lines(cs@.skip(at as int)) =~= texts(out@));
    out
}

/// The decimal digit `d`.
pub open spec fn digit_of(d: int) -> char {
    if d == 0 {
        '0'
    } else if d == 1 {
        '1'
    } else if d == 2 {
        '2'
    } else if d == 3 {
        '3'
    } else if d == 4 {
        '4'
    } else if d == 5 {
        '5'
    } else if d == 6 {
        '6'
    } else if d == 7 {
        '7'
    } else if d == 8 {
        '8'
    } else {
        '9'
    }
}

/// `n` in decimal, without leading zeros.
pub open spec fn digits(n: nat) -> Seq<char>
    decreases n,
{
    if n < 10 {
        seq![digit_of(n as int)]
    } else {
        digits(n / 10).push(digit_of((n % 10) as int))
    }
}

/// `n` in decimal, without leading zeros.
pub fn number64(n: u64) -> (r: String)
    ensures
        r@ == digits(n as nat),
    decreases n,
{
    let mut out: String = if n < 10 {
        String::new()
    } else {
        number64(n / 10)
    };
    let d: u64 = n % 10;
    out.push(
        if d == 0 {
            '0'
        } else if d == 1 {
            '1'
        } else if d == 2 {
            '2'
        } else if d == 3 {
            '3'
        } else if d == 4 {
            '4'
        } else if d == 5 {
            '5'
        } else if d == 6 {
            '6'
        } else if d == 7 {
            '7'
        } else if d == 8 {
            '8'
        } else {
            '9'
        },
    );
    assert(out@ =~= digits(n as nat));
    out
}

/// `n` in decimal, without leading zeros.
pub fn number(n: usize) -> (r: String)
    ensures
        r@ == digits(n as nat),
{
    number64(n as u64)
}

/// A number with its sign.
pub open spec fn signed_digits(n: int) -> Seq<char> {
    if n < 0 {
        seq!['-'] + digits((-n) as nat)
    } else {
        digits(n as nat)
    }
}

/// A number with its sign.
pub fn signed_number(n: i64) -> (r: String)
    ensures
        r@ == signed_digits(n as int),
{
    if n < 0 {
        let size: u64 = (-(n + 1)) as u64 + 1;
        let mut out = String::new();
        out.push('-');
        out.append(number64(size).as_str());
        assert(out@ =~= signed_digits(n as int));
        out
    } else {
        number64(n as u64)
    }
}

/// Where `key` first stands among `parts`.
pub open spec fn index_among(parts: Seq<Seq<char>>, key: Seq<char>) -> Option<int>
    decreases parts.len(),
{
    if parts.len() == 0 {
        None
    } else {
        match index_among(parts.drop_last(), key) {
            Some(i) => Some(i),
            None => if parts.last() == key {
                Some(parts.len() - 1)
            } else {
                None
            },
        }
    }
}

/// Where `key` first stands among `parts`.
pub fn position(parts: &[String], key: &str) -> (r: Option<usize>)
    ensures
        match r {
            Some(i) => index_among(texts(parts@), key@) == Some(i as int) && i < parts@.len()
                && parts@[i as int]@ == key@,
            None => index_among(texts(parts@), key@) is None && forall|i: int|
                0 <= i < parts@.len() ==> (#[trigger] parts@[i])@ != key@,
        },
{
    let ghost all = texts(parts@);
    let mut i: usize = 0;
    while i < parts.len()
        invariant
            i <= parts@.len(),
            all == texts(parts@),
            index_among(all.take(i as int), key@) is None,
            forall|j: int| 0 <= j < i ==> (#[trigger] parts@[j])@ != key@,
        decreases parts@.len() - i,
    {
        assert(all.take(i as int + 1).drop_last() =~= all.take(i as int));
        if same_text(parts[i].as_str(), key) {
            proof {
                found_stays(all, key@, i as int + 1);
            }
            return Some(i);
        }
        i = i + 1;
    }
    assert(all.take(i as int) =~= all);
    None
}

proof fn found_stays(parts: Seq<Seq<char>>, key: Seq<char>, n: int)
    requires
        0 <= n <= parts.len(),
        index_among(parts.take(n), key) is Some,
    ensures
        index_among(parts, key) == index_among(parts.take(n), key),
    decreases parts.len(),
{
    if n == parts.len() {
        assert(parts.take(n) =~= parts);
    } else {
        assert(parts.drop_last().take(n) =~= parts.take(n));
        found_stays(parts.drop_last(), key, n);
    }
}

/// How `Debug` prints a string: between double quotes, escaped.
pub uninterp spec fn debug_text(s: Seq<char>) -> Seq<char>;

/// `<str as Debug>::fmt`, through `format!`: `s` between double quotes with
/// its special characters escaped. The escapes are not spelled out here.
#[verifier::external_body]
pub(crate) fn quoted(s: &str) -> (r: String)
    ensures
        r@ == debug_text(s@),
{
    format!("{s:?}")
}

/// A copy of `s`.
pub fn copy(s: &str) -> (r: String)
    ensures
        r@ == s@,
{
    let mut out: String = String::new();
    out.append(s);
    assert(out@ =~= s@);
    out
}

/// How many bytes `c` takes in UTF-8.
pub open spec fn utf8_width(c: char) -> nat {
    if c <= '\u{7f}' {
        1
    } else if c <= '\u{7ff}' {
        2
    } else if c <= '\u{ffff}' {
        3
    } else {
        4
    }
}

/// How many bytes `s` takes in UTF-8.
pub open spec fn utf8_len(s: Seq<char>) -> nat
    decreases s.len(),
{
    if s.len() == 0 {
        0
    } else {
        utf8_len(s.drop_last()) + utf8_width(s.last())
    }
}

/// How many bytes `s` takes in UTF-8.
pub fn width(s: &str) -> (r: u128)
    ensures
        r == utf8_len(s@),
{
    let cs = chars(s);
    let n: usize = cs.len();
    let mut out: u128 = 0;
    let mut i: usize = 0;
    while i < n
        invariant
            i <= n == cs@.len(),
            out == utf8_len(cs@.take(i as int)),
            out <= 4 * i,
        decreases n - i,
    {
        assert(cs@.take(i as int + 1).drop_last() =~= cs@.take(i as int));
        let c = cs[i];
        let w: u128 = if c <= '\u{7f}' {
            1
        } else if c <= '\u{7ff}' {
            2
        } else if c <= '\u{ffff}' {
            3
        } else {
            4
        };
        out = out + w;
        i = i + 1;
    }
    assert(cs@.take(i as int) =~= cs@);
    out
}

/// Where `key` goes in the sorted `set`: before the first text that does not
/// come before it.
pub open spec fn slot(set: Seq<Seq<char>>, key: Seq<char>, from: int) -> int
    decreases set.len() - from,
{
    if 0 <= from < set.len() && before(set[from], key) {
        slot(set, key, from + 1)
    } else {
        from
    }
}

/// The sorted `set` with `key` in it.
pub open spec fn with_key(set: Seq<Seq<char>>, key: Seq<char>) -> Seq<Seq<char>> {
    let at = slot(set, key, 0);
    if at < set.len() && set[at] == key {
        set
    } else {
        set.insert(at, key)
    }
}

/// The texts of `list`, each once, in order.
pub open spec fn sorted_set(list: Seq<Seq<char>>) -> Seq<Seq<char>>
    decreases list.len(),
{
    if list.len() == 0 {
        Seq::empty()
    } else {
        with_key(sorted_set(list.drop_last()), list.last())
    }
}

/// A key's slot is in the set, or behind it.
pub proof fn slot_bound(set: Seq<Seq<char>>, key: Seq<char>, from: int)
    requires
        0 <= from <= set.len(),
    ensures
        from <= slot(set, key, from) <= set.len(),
    decreases set.len() - from,
{
    if from < set.len() && before(set[from], key) {
        slot_bound(set, key, from + 1);
    }
}

/// Puts `key` into the sorted `set`.
pub fn add_key(set: &mut Vec<String>, key: &str)
    ensures
        texts(final(set)@) == with_key(texts(old(set)@), key@),
{
    let ghost was = texts(set@);
    let mut at: usize = 0;
    while at < set.len() && comes_before(set[at].as_str(), key)
        invariant
            at <= set@.len(),
            was == texts(set@),
            slot(was, key@, 0) == slot(was, key@, at as int),
        decreases set@.len() - at,
    {
        assert(was[at as int] == set@[at as int]@);
        at = at + 1;
    }
    let there = if at < set.len() {
        assert(was[at as int] == set@[at as int]@);
        same_text(set[at].as_str(), key)
    } else {
        false
    };
    if !there {
        let k = copy(key);
        set.insert(at, k);
        assert(texts(set@) =~= was.insert(at as int, key@));
    }
}

/// What stands between the `sep`s of `s`, the empty parts too.
pub open spec fn pieces(s: Seq<char>, sep: char) -> Seq<Seq<char>>
    decreases s.len(),
{
    if s.len() == 0 {
        seq![Seq::empty()]
    } else {
        let rest = pieces(s.drop_last(), sep);
        if s.last() == sep {
            rest.push(Seq::empty())
        } else {
            rest.drop_last().push(rest.last().push(s.last()))
        }
    }
}

/// What stands between the `sep`s of `s`, the empty parts too.
pub fn split(s: &str, sep: char) -> (r: Vec<String>)
    ensures
        texts(r@) == pieces(s@, sep),
        r@.len() > 0,
{
    let cs = chars(s);
    let mut out: Vec<String> = Vec::new();
    let mut open: Vec<char> = Vec::new();
    let mut i: usize = 0;
    assert(pieces(cs@.take(0), sep) =~= texts(out@).push(open@));
    while i < cs.len()
        invariant
            i <= cs@.len(),
            cs@ == s@,
            pieces(cs@.take(i as int), sep) == texts(out@).push(open@),
        decreases cs@.len() - i,
    {
        let c = cs[i];
        let ghost before = out@;
        let ghost had = open@;
        assert(cs@.take(i as int + 1).drop_last() =~= cs@.take(i as int));
        if c == sep {
            let one = string_of(open.as_slice());
            out.push(one);
            open = Vec::new();
            assert(texts(out@) =~= texts(before).push(had));
            assert(pieces(cs@.take(i as int + 1), sep) =~= texts(out@).push(open@));
        } else {
            open.push(c);
            assert(texts(before).push(had).drop_last() =~= texts(before));
            assert(pieces(cs@.take(i as int + 1), sep) =~= texts(out@).push(open@));
        }
        i = i + 1;
    }
    assert(cs@.take(i as int) =~= cs@);
    let ghost before = out@;
    let one = string_of(open.as_slice());
    out.push(one);
    assert(texts(out@) =~= texts(before).push(open@));
    out
}

/// A letter of ASCII in lower case; any other character as it is.
pub open spec fn lower(c: char) -> char {
    if 'A' <= c <= 'Z' {
        ((c as u8 + 32) as u8) as char
    } else {
        c
    }
}

/// `s` with the letters of ASCII in lower case.
pub open spec fn lowered(s: Seq<char>) -> Seq<char> {
    s.map_values(|c: char| lower(c))
}

/// A letter of ASCII in lower case; any other character as it is.
pub fn lower_char(c: char) -> (r: char)
    ensures
        r == lower(c),
{
    if 'A' <= c && c <= 'Z' {
        (c as u8 + 32) as char
    } else {
        c
    }
}

/// `s` with the letters of ASCII in lower case.
pub fn to_lower(s: &str) -> (r: String)
    ensures
        r@ == lowered(s@),
{
    let cs = chars(s);
    let mut out: Vec<char> = Vec::new();
    let mut i: usize = 0;
    while i < cs.len()
        invariant
            i <= cs@.len(),
            i == out@.len(),
            forall|k: int| 0 <= k < i ==> #[trigger] out@[k] == lower(cs@[k]),
        decreases cs@.len() - i,
    {
        let c = cs[i];
        out.push(lower_char(c));
        i = i + 1;
    }
    assert(out@ =~= lowered(s@));
    string_of(out.as_slice())
}

proof fn pieces_go_on(s: Seq<char>, t: Seq<char>, sep: char)
    requires
        forall|i: int| 0 <= i < t.len() ==> #[trigger] t[i] != sep,
    ensures
        pieces(s, sep).len() > 0,
        pieces(s + t, sep) == pieces(s, sep).drop_last().push(pieces(s, sep).last() + t),
    decreases t.len(), s.len(),
{
    if t.len() == 0 {
        assert(s + t =~= s);
        if s.len() > 0 {
            pieces_go_on(s.drop_last(), Seq::empty(), sep);
        }
        let all = pieces(s, sep);
        assert(all.last() + t =~= all.last());
        assert(all.drop_last().push(all.last()) =~= all);
    } else {
        let u = t.drop_last();
        assert forall|i: int| 0 <= i < u.len() implies #[trigger] u[i] != sep by {
            assert(u[i] == t[i]);
        }
        pieces_go_on(s, u, sep);
        assert((s + t).drop_last() =~= s + u);
        assert((s + t).last() == t.last());
        let all = pieces(s, sep);
        let rest = pieces(s + u, sep);
        assert(t.last() != sep);
        assert(rest.drop_last() =~= all.drop_last());
        assert(rest.last() =~= all.last() + u);
        assert((all.last() + u).push(t.last()) =~= all.last() + t);
    }
}

/// Texts without the separator, put together with it, come apart again.
pub proof fn pieces_of_joined(parts: Seq<Seq<char>>, sep: char)
    requires
        parts.len() > 0,
        forall|k: int, i: int|
            0 <= k < parts.len() && 0 <= i < parts[k].len() ==> #[trigger] parts[k][i] != sep,
    ensures
        pieces(joined(parts, seq![sep]), sep) == parts,
    decreases parts.len(),
{
    let last = parts.last();
    assert forall|i: int| 0 <= i < last.len() implies #[trigger] last[i] != sep by {
        assert(parts[parts.len() - 1][i] != sep);
    }
    if parts.len() == 1 {
        pieces_go_on(Seq::empty(), last, sep);
        assert(Seq::<char>::empty() + last =~= last);
        assert(pieces(last, sep) =~= parts);
    } else {
        let front = parts.drop_last();
        assert forall|k: int, i: int|
            0 <= k < front.len() && 0 <= i < front[k].len() implies #[trigger] front[k][i] != sep by {
            assert(parts[k][i] != sep);
        }
        pieces_of_joined(front, sep);
        let s = joined(front, seq![sep]);
        let t = s + seq![sep];
        assert(t.drop_last() =~= s);
        assert(pieces(t, sep) == front.push(Seq::empty()));
        pieces_go_on(t, last, sep);
        assert(Seq::<char>::empty() + last =~= last);
        assert(front.push(Seq::<char>::empty()).drop_last() =~= front);
        assert(pieces(t + last, sep) =~= parts);
    }
}

/// No part holds the separator.
pub proof fn pieces_are_free(s: Seq<char>, sep: char)
    ensures
        pieces(s, sep).len() > 0,
        forall|k: int, i: int|
            0 <= k < pieces(s, sep).len() && 0 <= i < pieces(s, sep)[k].len()
                ==> #[trigger] pieces(s, sep)[k][i] != sep,
    decreases s.len(),
{
    if s.len() > 0 {
        let rest = pieces(s.drop_last(), sep);
        let all = pieces(s, sep);
        pieces_are_free(s.drop_last(), sep);
        assert forall|k: int, i: int|
            0 <= k < all.len() && 0 <= i < all[k].len() implies #[trigger] all[k][i] != sep by {
            if k < rest.len() && i < rest[k].len() {
                assert(rest[k][i] != sep);
            }
        }
    }
}

/// A set holds a text put into it, and what it held before.
pub proof fn a_set_holds_what_is_put_into_it(
    set: Seq<Seq<char>>,
    key: Seq<char>,
    other: Seq<char>,
)
    ensures
        with_key(set, key).contains(other) <==> set.contains(other) || other == key,
{
    let at = slot(set, key, 0);
    let now = with_key(set, key);
    slot_bound(set, key, 0);
    if at < set.len() && set[at] == key {
    } else {
        assert(now[at] == key);
        if set.contains(other) {
            let i = choose|i: int| 0 <= i < set.len() && set[i] == other;
            if i < at {
                assert(now[i] == other);
            } else {
                assert(now[i + 1] == other);
            }
        }
        if now.contains(other) && other != key {
            let i = choose|i: int| 0 <= i < now.len() && now[i] == other;
            if i < at {
                assert(set[i] == other);
            } else {
                assert(set[i - 1] == other);
            }
        }
    }
}

/// The set of a list's texts holds those texts and no other.
pub proof fn a_set_holds_its_list(list: Seq<Seq<char>>, s: Seq<char>)
    ensures
        sorted_set(list).contains(s) <==> list.contains(s),
    decreases list.len(),
{
    if list.len() > 0 {
        let shorter = list.drop_last();
        a_set_holds_its_list(shorter, s);
        a_set_holds_what_is_put_into_it(sorted_set(shorter), list.last(), s);
        if list.contains(s) {
            let i = choose|i: int| 0 <= i < list.len() && list[i] == s;
            if i < shorter.len() {
                assert(shorter[i] == s);
            }
        }
        if shorter.contains(s) {
            let i = choose|i: int| 0 <= i < shorter.len() && shorter[i] == s;
            assert(list[i] == s);
        }
        assert(list[list.len() - 1] == list.last());
    }
}

} // verus!
