//! What the dedup keys of a statement's lines and its reversals promise.

use vstd::prelude::*;

use crate::amount;
use crate::amount::Dec;
use crate::date;
use crate::statements::bank;
use crate::statements::bank::{Bank, LineV};
use crate::text;

verus! {

/// Does a text hold no colon?
pub open spec fn clear(s: Seq<char>) -> bool {
    forall|i: int| 0 <= i < s.len() ==> #[trigger] s[i] != ':'
}

proof fn clear_both(a: Seq<char>, b: Seq<char>)
    requires
        clear(a),
        clear(b),
    ensures
        clear(a + b),
{
    assert forall|i: int| 0 <= i < (a + b).len() implies #[trigger] (a + b)[i] != ':' by {
        if i < a.len() {
            assert((a + b)[i] == a[i]);
        } else {
            assert((a + b)[i] == b[i - a.len()]);
        }
    }
}

proof fn digits_clear(n: nat)
    ensures
        clear(text::digits(n)),
    decreases n,
{
    if n >= 10 {
        digits_clear(n / 10);
    }
}

proof fn padded_clear(n: nat, width: nat)
    ensures
        clear(amount::padded(n, width)),
        amount::padded(n, width).len() == width,
    decreases width,
{
    if width > 0 {
        padded_clear(n / 10, (width - 1) as nat);
    }
}

proof fn amount_clear(d: Dec)
    ensures
        clear(amount::printed(d)),
{
    let one = amount::pow10(d.scale as nat);
    let whole = text::digits((d.magnitude as int / one) as nat);
    let part = amount::padded((d.magnitude as int % one) as nat, d.scale as nat);
    digits_clear((d.magnitude as int / one) as nat);
    padded_clear((d.magnitude as int % one) as nat, d.scale as nat);
    clear_both(seq!['.'], part);
    let sign: Seq<char> = if d.negative {
        seq!['-']
    } else {
        seq![]
    };
    let tail: Seq<char> = if d.scale == 0 {
        seq![]
    } else {
        seq!['.'] + part
    };
    clear_both(sign, whole);
    clear_both(sign + whole, tail);
}

/// How a year prints.
spec fn year_text(y: int) -> Seq<char> {
    if 0 <= y <= 9999 {
        amount::padded(y as nat, 4)
    } else if 0 <= y {
        seq!['+'] + text::digits(y as nat)
    } else if -9999 <= y {
        seq!['-'] + amount::padded((-y) as nat, 4)
    } else {
        seq!['-'] + text::digits((-y) as nat)
    }
}

proof fn date_clear(day: int)
    ensures
        clear(date::printed(day)),
{
    let (y, m, d) = date::civil(day);
    let year = year_text(y);
    padded_clear(y as nat, 4);
    padded_clear((-y) as nat, 4);
    digits_clear(y as nat);
    digits_clear((-y) as nat);
    padded_clear(m as nat, 2);
    padded_clear(d as nat, 2);
    clear_both(seq!['+'], text::digits(y as nat));
    clear_both(seq!['-'], text::digits((-y) as nat));
    clear_both(seq!['-'], amount::padded((-y) as nat, 4));
    let mm = amount::padded(m as nat, 2);
    let dd = amount::padded(d as nat, 2);
    clear_both(year, seq!['-']);
    clear_both(year + seq!['-'], mm);
    clear_both(year + seq!['-'] + mm, seq!['-']);
    clear_both(year + seq!['-'] + mm + seq!['-'], dd);
}

/// What stands before the last colon, and behind it, is told by the text.
proof fn last_colon(x: Seq<char>, a: Seq<char>, y: Seq<char>, b: Seq<char>)
    requires
        clear(a),
        clear(b),
        x + seq![':'] + a == y + seq![':'] + b,
    ensures
        x == y,
        a == b,
{
    let s = x + seq![':'] + a;
    assert(s.len() == x.len() + 1 + a.len());
    assert((y + seq![':'] + b).len() == y.len() + 1 + b.len());
    assert(s[x.len() as int] == ':');
    assert(s[y.len() as int] == (y + seq![':'] + b)[y.len() as int]);
    if x.len() < y.len() {
        assert(s[y.len() as int] == a[y.len() - x.len() - 1]);
    }
    if y.len() < x.len() {
        assert((y + seq![':'] + b)[x.len() as int] == b[x.len() - y.len() - 1]);
    }
    assert(x =~= s.take(x.len() as int));
    assert(y =~= (y + seq![':'] + b).take(y.len() as int));
    assert(a =~= s.skip(x.len() as int + 1));
    assert(b =~= (y + seq![':'] + b).skip(y.len() as int + 1));
}

/// How often a colon stands in a text.
spec fn colons(s: Seq<char>) -> nat
    decreases s.len(),
{
    if s.len() == 0 {
        0
    } else {
        colons(s.drop_last()) + (if s.last() == ':' {
            1nat
        } else {
            0nat
        })
    }
}

proof fn colons_add(a: Seq<char>, b: Seq<char>)
    ensures
        colons(a + b) == colons(a) + colons(b),
    decreases b.len(),
{
    if b.len() == 0 {
        assert(a + b =~= a);
    } else {
        colons_add(a, b.drop_last());
        assert((a + b).drop_last() =~= a + b.drop_last());
        assert((a + b).last() == b.last());
    }
}

proof fn clear_has_none(s: Seq<char>)
    requires
        clear(s),
    ensures
        colons(s) == 0,
    decreases s.len(),
{
    if s.len() > 0 {
        assert(s.last() == s[s.len() - 1]);
        assert forall|i: int| 0 <= i < s.drop_last().len() implies #[trigger] s.drop_last()[i]
            != ':' by {
            assert(s.drop_last()[i] == s[i]);
        }
        clear_has_none(s.drop_last());
    }
}

proof fn colons_behind(x: Seq<char>, a: Seq<char>)
    requires
        clear(a),
    ensures
        colons(x + seq![':'] + a) == colons(x) + 1,
{
    colons_add(x + seq![':'], a);
    colons_add(x, seq![':']);
    clear_has_none(a);
    assert(seq![':'].drop_last() =~= Seq::<char>::empty());
    assert(colons(seq![':']) == 1) by {
        reveal_with_fuel(colons, 2);
    }
}

proof fn colon_text()
    ensures
        ":"@ == seq![':'],
{
    reveal_strlit(":");
    assert(":"@ =~= seq![':']);
}

/// A key up to its account number.
spec fn head(prefix: Seq<char>, account_no: Seq<char>) -> Seq<char> {
    prefix + account_no
}

proof fn base_parts(prefix: Seq<char>, account_no: Seq<char>, l: LineV)
    ensures
        bank::base_ref(prefix, account_no, l) == head(prefix, account_no) + seq![':']
            + date::printed(l.book_date) + seq![':'] + amount::printed(bank::delta(l)->0) + seq![':']
            + amount::printed(l.balance),
        colons(bank::base_ref(prefix, account_no, l)) == colons(head(prefix, account_no)) + 3,
{
    colon_text();
    date_clear(l.book_date);
    amount_clear(bank::delta(l)->0);
    amount_clear(l.balance);
    let h = head(prefix, account_no);
    let one = h + seq![':'] + date::printed(l.book_date);
    let two = one + seq![':'] + amount::printed(bank::delta(l)->0);
    colons_behind(h, date::printed(l.book_date));
    colons_behind(one, amount::printed(bank::delta(l)->0));
    colons_behind(two, amount::printed(l.balance));
}

proof fn digits_tell(a: nat, b: nat)
    requires
        text::digits(a) == text::digits(b),
    ensures
        a == b,
    decreases a,
{
    let (s, t) = (text::digits(a), text::digits(b));
    digits_some(a / 10);
    digits_some(b / 10);
    assert(s.last() == text::digit_of((a % 10) as int));
    assert(t.last() == text::digit_of((b % 10) as int));
    assert(a % 10 == b % 10);
    if a >= 10 && b >= 10 {
        assert(s.drop_last() =~= text::digits(a / 10));
        assert(t.drop_last() =~= text::digits(b / 10));
        digits_tell(a / 10, b / 10);
    }
}

proof fn digits_some(n: nat)
    ensures
        text::digits(n).len() > 0,
{
}

proof fn occurrences_grow(s: Seq<Seq<char>>, key: Seq<char>, i: int, j: int)
    requires
        0 <= i < j <= s.len(),
        s[i] == key,
    ensures
        bank::occurrences(s.take(i), key) < bank::occurrences(s.take(j), key),
    decreases j,
{
    assert(s.take(j).drop_last() =~= s.take(j - 1));
    if i < j - 1 {
        occurrences_grow(s, key, i, j - 1);
    }
}

/// No two lines of a statement have one dedup key.
pub proof fn refs_tell_lines_apart(
    prefix: Seq<char>,
    account_no: Seq<char>,
    lines: Seq<LineV>,
    i: int,
    j: int,
)
    requires
        0 <= i < j < lines.len(),
    ensures
        bank::refs(prefix, account_no, lines)[i] != bank::refs(prefix, account_no, lines)[j],
{
    let bases = bank::base_refs(prefix, account_no, lines);
    let (a, b) = (bases[i], bases[j]);
    let n = bank::occurrences(bases.take(i), a) + 1;
    let m = bank::occurrences(bases.take(j), b) + 1;
    let all = bank::refs(prefix, account_no, lines);
    assert(all[i] == bank::numbered(a, n));
    assert(all[j] == bank::numbered(b, m));
    colon_text();
    base_parts(prefix, account_no, lines[i]);
    base_parts(prefix, account_no, lines[j]);
    digits_clear(n);
    digits_clear(m);
    colons_behind(a, text::digits(n));
    colons_behind(b, text::digits(m));
    if a == b {
        occurrences_grow(bases, a, i, j);
    }
    if all[i] == all[j] && n != 1 && m != 1 {
        last_colon(a, text::digits(n), b, text::digits(m));
        digits_tell(n, m);
    }
}

proof fn padded_tells(a: nat, b: nat, width: nat)
    requires
        amount::padded(a, width) == amount::padded(b, width),
        a < amount::pow10(width),
        b < amount::pow10(width),
    ensures
        a == b,
    decreases width,
{
    if width > 0 {
        let (s, t) = (amount::padded(a, width), amount::padded(b, width));
        let less = (width - 1) as nat;
        assert(s.last() == text::digit_of((a % 10) as int));
        assert(t.last() == text::digit_of((b % 10) as int));
        assert(s.drop_last() =~= amount::padded(a / 10, less));
        assert(t.drop_last() =~= amount::padded(b / 10, less));
        padded_tells(a / 10, b / 10, less);
    }
}

proof fn digits_long(n: nat)
    ensures
        n > 9999 ==> text::digits(n).len() >= 5,
{
    reveal_with_fuel(text::digits, 5);
}

proof fn year_tells(y: int, z: int)
    requires
        year_text(y) == year_text(z),
    ensures
        y == z,
{
    reveal_with_fuel(amount::pow10, 5);
    reveal_with_fuel(amount::padded, 5);
    digits_long(y as nat);
    digits_long(z as nat);
    digits_long((-y) as nat);
    digits_long((-z) as nat);
    padded_clear((-y) as nat, 4);
    padded_clear((-z) as nat, 4);
    let (s, t) = (year_text(y), year_text(z));
    if 0 <= y <= 9999 {
        padded_clear(y as nat, 4);
        assert(s[0] == text::digit_of((y / 1000) % 10));
        if 0 <= z <= 9999 {
            padded_tells(y as nat, z as nat, 4);
        } else {
            assert(t[0] == '+' || t[0] == '-');
        }
    } else {
        assert(s[0] == '+' || s[0] == '-');
        if 0 <= z <= 9999 {
            assert(t[0] == text::digit_of((z / 1000) % 10));
        } else if 0 <= y {
            assert(s[0] == '+');
            assert(t[0] == '+');
            assert(s.skip(1) =~= text::digits(y as nat));
            assert(t.skip(1) =~= text::digits(z as nat));
            digits_tell(y as nat, z as nat);
        } else if -9999 <= y {
            assert(s.skip(1) =~= amount::padded((-y) as nat, 4));
            assert(-9999 <= z < 0);
            assert(t.skip(1) =~= amount::padded((-z) as nat, 4));
            padded_tells((-y) as nat, (-z) as nat, 4);
        } else {
            assert(s.skip(1) =~= text::digits((-y) as nat));
            assert(z < -9999);
            assert(t.skip(1) =~= text::digits((-z) as nat));
            digits_tell((-y) as nat, (-z) as nat);
        }
    }
}

/// Two days print alike only if they are one.
pub proof fn days_print_apart(a: int, b: int)
    requires
        date::MIN_DAY <= a <= date::MAX_DAY,
        date::MIN_DAY <= b <= date::MAX_DAY,
        date::printed(a) == date::printed(b),
    ensures
        a == b,
{
    date::has_civil(a);
    date::has_civil(b);
    let (y, m, d) = date::civil(a);
    let (z, n, e) = date::civil(b);
    let (s, t) = (date::printed(a), date::printed(b));
    padded_clear(m as nat, 2);
    padded_clear(n as nat, 2);
    padded_clear(d as nat, 2);
    padded_clear(e as nat, 2);
    let (ys, zs) = (year_text(y), year_text(z));
    let k = s.len() as int;
    assert(s.len() == ys.len() + 6);
    assert(t.len() == zs.len() + 6);
    assert(ys =~= s.take(k - 6));
    assert(zs =~= t.take(k - 6));
    assert(amount::padded(m as nat, 2) =~= s.subrange(k - 5, k - 3));
    assert(amount::padded(n as nat, 2) =~= t.subrange(k - 5, k - 3));
    assert(amount::padded(d as nat, 2) =~= s.skip(k - 2));
    assert(amount::padded(e as nat, 2) =~= t.skip(k - 2));
    year_tells(y, z);
    assert(amount::pow10(2) == 100) by {
        reveal_with_fuel(amount::pow10, 3);
    }
    padded_tells(m as nat, n as nat, 2);
    padded_tells(d as nat, e as nat, 2);
}

proof fn bases_tell_days(prefix: Seq<char>, account_no: Seq<char>, a: LineV, b: LineV)
    requires
        bank::base_ref(prefix, account_no, a) == bank::base_ref(prefix, account_no, b),
        date::MIN_DAY <= a.book_date <= date::MAX_DAY,
        date::MIN_DAY <= b.book_date <= date::MAX_DAY,
    ensures
        a.book_date == b.book_date,
{
    base_parts(prefix, account_no, a);
    base_parts(prefix, account_no, b);
    let h = head(prefix, account_no);
    date_clear(a.book_date);
    date_clear(b.book_date);
    amount_clear(bank::delta(a)->0);
    amount_clear(bank::delta(b)->0);
    amount_clear(a.balance);
    amount_clear(b.balance);
    let (a1, b1) = (
        h + seq![':'] + date::printed(a.book_date),
        h + seq![':'] + date::printed(b.book_date),
    );
    let (a2, b2) = (
        a1 + seq![':'] + amount::printed(bank::delta(a)->0),
        b1 + seq![':'] + amount::printed(bank::delta(b)->0),
    );
    last_colon(a2, amount::printed(a.balance), b2, amount::printed(b.balance));
    last_colon(a1, amount::printed(bank::delta(a)->0), b1, amount::printed(bank::delta(b)->0));
    last_colon(h, date::printed(a.book_date), h, date::printed(b.book_date));
    days_print_apart(a.book_date, b.book_date);
}

proof fn occurrences_apart(s: Seq<Seq<char>>, t: Seq<Seq<char>>, key: Seq<char>)
    requires
        forall|i: int| 0 <= i < s.len() ==> #[trigger] s[i] != key,
    ensures
        bank::occurrences(s + t, key) == bank::occurrences(t, key),
    decreases t.len(),
{
    if t.len() == 0 {
        assert(s + t =~= s);
        none_occurs(s, key);
    } else {
        occurrences_apart(s, t.drop_last(), key);
        assert((s + t).drop_last() =~= s + t.drop_last());
        assert((s + t).last() == t.last());
    }
}

proof fn none_occurs(s: Seq<Seq<char>>, key: Seq<char>)
    requires
        forall|i: int| 0 <= i < s.len() ==> #[trigger] s[i] != key,
    ensures
        bank::occurrences(s, key) == 0,
    decreases s.len(),
{
    if s.len() > 0 {
        assert(s.last() == s[s.len() - 1]);
        assert forall|i: int| 0 <= i < s.drop_last().len() implies #[trigger] s.drop_last()[i]
            != key by {
            assert(s.drop_last()[i] == s[i]);
        }
        none_occurs(s.drop_last(), key);
    }
}

/// A line keeps its dedup key however statements are split: those of lines
/// joined from two statements that share no day are those of each.
pub proof fn refs_do_not_depend_on_other_days(
    prefix: Seq<char>,
    account_no: Seq<char>,
    a: Seq<LineV>,
    b: Seq<LineV>,
)
    requires
        forall|i: int|
            0 <= i < a.len() ==> date::MIN_DAY <= (#[trigger] a[i]).book_date <= date::MAX_DAY,
        forall|i: int|
            0 <= i < b.len() ==> date::MIN_DAY <= (#[trigger] b[i]).book_date <= date::MAX_DAY,
        forall|i: int, j: int|
            0 <= i < a.len() && 0 <= j < b.len() ==> (#[trigger] a[i]).book_date != (
            #[trigger] b[j]).book_date,
    ensures
        bank::refs(prefix, account_no, a + b) == bank::refs(prefix, account_no, a) + bank::refs(
            prefix,
            account_no,
            b,
        ),
{
    let (s, t) = (
        bank::base_refs(prefix, account_no, a),
        bank::base_refs(prefix, account_no, b),
    );
    let all = bank::base_refs(prefix, account_no, a + b);
    assert(all =~= s + t);
    let joined = bank::refs(prefix, account_no, a + b);
    let parts = bank::refs(prefix, account_no, a) + bank::refs(prefix, account_no, b);
    assert forall|k: int| 0 <= k < joined.len() implies #[trigger] joined[k] == parts[k] by {
        if k < a.len() {
            assert(all.take(k) =~= s.take(k));
        } else {
            let j = k - a.len();
            assert(all.take(k) =~= s + t.take(j));
            assert forall|i: int| 0 <= i < s.len() implies #[trigger] s[i] != t[j] by {
                if s[i] == t[j] {
                    bases_tell_days(prefix, account_no, a[i], b[j]);
                    assert(a[i].book_date != b[j].book_date);
                }
            }
            occurrences_apart(s, t.take(j), t[j]);
        }
    }
    assert(joined =~= parts);
}

proof fn undone_is_free(bank: Bank, lines: Seq<LineV>, used: Seq<bool>, line: LineV, to: int)
    ensures
        bank::undone(bank, lines, used, line, to) matches Some(d) ==> 0 <= d < to && !used[d]
            && bank::cancels(bank, lines[d], line),
    decreases to,
{
    if to > 0 {
        undone_is_free(bank, lines, used, line, to - 1);
    }
}

proof fn paired_lines_are_used(bank: Bank, lines: Seq<LineV>, n: int)
    requires
        0 <= n <= lines.len(),
    ensures
        ({
            let (used, pairs) = bank::paired(bank, lines, n);
            &&& used.len() == lines.len()
            &&& forall|i: int| n <= i < lines.len() ==> !#[trigger] used[i]
            &&& forall|p: int|
                0 <= p < pairs.len() ==> 0 <= (#[trigger] pairs[p]).0 < pairs[p].1 < n
                    && used[pairs[p].0] && used[pairs[p].1] && bank::cancels(
                    bank,
                    lines[pairs[p].0],
                    lines[pairs[p].1],
                )
            &&& forall|p: int, q: int|
                0 <= p < q < pairs.len() ==> (#[trigger] pairs[p]).0 != (#[trigger] pairs[q]).0
                    && pairs[p].0 != pairs[q].1 && pairs[p].1 != pairs[q].0 && pairs[p].1
                    != pairs[q].1
        }),
    decreases n,
{
    if n > 0 {
        paired_lines_are_used(bank, lines, n - 1);
        let (used, pairs) = bank::paired(bank, lines, n - 1);
        undone_is_free(bank, lines, used, lines[n - 1], n - 1);
        if let Some(d) = bank::undone(bank, lines, used, lines[n - 1], n - 1) {
            let (after, now) = bank::paired(bank, lines, n);
            assert forall|p: int, q: int| 0 <= p < q < now.len() implies (#[trigger] now[p]).0 != (
            #[trigger] now[q]).0 && now[p].0 != now[q].1 && now[p].1 != now[q].0 && now[p].1
                != now[q].1 by {
                assert(now[p] == pairs[p]);
                if q < pairs.len() {
                    assert(now[q] == pairs[q]);
                }
            }
            assert forall|p: int| 0 <= p < now.len() implies 0 <= (#[trigger] now[p]).0 < now[p].1
                < n && after[now[p].0] && after[now[p].1] && bank::cancels(
                bank,
                lines[now[p].0],
                lines[now[p].1],
            ) by {
                if p < pairs.len() {
                    assert(now[p] == pairs[p]);
                }
            }
        }
    }
}

/// Each reversal undoes an earlier debit, and no line stands in two pairs.
pub proof fn reversals_pair_lines_once(bank: Bank, lines: Seq<LineV>, p: int, q: int)
    requires
        0 <= p < bank::reversals(bank, lines).len(),
        0 <= q < bank::reversals(bank, lines).len(),
    ensures
        ({
            let pairs = bank::reversals(bank, lines);
            &&& 0 <= pairs[p].0 < pairs[p].1 < lines.len()
            &&& bank::cancels(bank, lines[pairs[p].0], lines[pairs[p].1])
            &&& p != q ==> pairs[p].0 != pairs[q].0 && pairs[p].0 != pairs[q].1 && pairs[p].1
                != pairs[q].0 && pairs[p].1 != pairs[q].1
        }),
{
    paired_lines_are_used(bank, lines, lines.len() as int);
    let pairs = bank::reversals(bank, lines);
    if p < q {
        assert(pairs[p].0 != pairs[q].0);
    } else if q < p {
        assert(pairs[q].0 != pairs[p].0);
    }
}

} // verus!
