//! Character-level helpers over string slices, stated on `Seq<char>`.
use vstd::prelude::*;
use vstd::string::StrSliceExecFns;

verus! {

/// Position of the first `c` in `s`, or `s.len()` when `c` does not occur.
pub open spec fn index_of(s: Seq<char>, c: char) -> int
    decreases s.len(),
{
    if s.len() == 0 {
        0
    } else if s[0] == c {
        0
    } else {
        1 + index_of(s.drop_first(), c)
    }
}

/// Everything after the first `c` in `s`; empty when `c` does not occur.
pub open spec fn after_first(s: Seq<char>, c: char) -> Seq<char> {
    if index_of(s, c) < s.len() {
        s.subrange(index_of(s, c) + 1, s.len() as int)
    } else {
        Seq::empty()
    }
}

/// Everything before the first `c` in `s`; all of `s` when `c` does not occur.
pub open spec fn before_first(s: Seq<char>, c: char) -> Seq<char> {
    s.subrange(0, index_of(s, c))
}

pub open spec fn has_prefix(s: Seq<char>, p: Seq<char>) -> bool {
    s.len() >= p.len() && s.subrange(0, p.len() as int) == p
}

pub open spec fn has_suffix(s: Seq<char>, p: Seq<char>) -> bool {
    s.len() >= p.len() && s.subrange(s.len() - p.len(), s.len() as int) == p
}

pub proof fn lemma_index_of_bounds(s: Seq<char>, c: char)
    ensures
        0 <= index_of(s, c) <= s.len(),
        index_of(s, c) < s.len() ==> s[index_of(s, c)] == c,
        forall|j: int| 0 <= j < index_of(s, c) ==> s[j] != c,
    decreases s.len(),
{
    if s.len() > 0 && s[0] != c {
        lemma_index_of_bounds(s.drop_first(), c);
        assert forall|j: int| 0 <= j < index_of(s, c) implies s[j] != c by {
            if j > 0 {
                assert(s[j] == s.drop_first()[j - 1]);
            }
        }
    }
}

/// The first `c` is at `i` when no earlier position holds `c`.
pub proof fn lemma_index_of_at(s: Seq<char>, c: char, i: int)
    requires
        0 <= i <= s.len(),
        forall|j: int| 0 <= j < i ==> s[j] != c,
        i == s.len() || s[i] == c,
    ensures
        index_of(s, c) == i,
    decreases i,
{
    if i > 0 {
        let t = s.drop_first();
        assert forall|j: int| 0 <= j < i - 1 implies t[j] != c by {
            assert(t[j] == s[j + 1]);
        }
        if i < s.len() {
            assert(t[i - 1] == s[i]);
        }
        lemma_index_of_at(t, c, i - 1);
    }
}

/// `c` does not occur in `x`, so its first position in `x + y` lies in `y`.
pub proof fn lemma_index_of_concat(x: Seq<char>, y: Seq<char>, c: char)
    requires
        forall|j: int| 0 <= j < x.len() ==> x[j] != c,
    ensures
        index_of(x + y, c) == x.len() + index_of(y, c),
{
    let s = x + y;
    lemma_index_of_bounds(y, c);
    let i = x.len() + index_of(y, c);
    assert forall|j: int| 0 <= j < i implies s[j] != c by {
        if j >= x.len() {
            assert(s[j] == y[j - x.len()]);
        }
    }
    if index_of(y, c) < y.len() {
        assert(s[i] == y[index_of(y, c)]);
    }
    lemma_index_of_at(s, c, i);
}

/// Splitting `x + [c] + y` at its first `c` gives back `x` and `y`.
pub proof fn lemma_split_at_separator(x: Seq<char>, y: Seq<char>, c: char)
    requires
        forall|j: int| 0 <= j < x.len() ==> x[j] != c,
    ensures
        index_of(x + seq![c] + y, c) == x.len(),
        before_first(x + seq![c] + y, c) == x,
        after_first(x + seq![c] + y, c) == y,
{
    let s = x + seq![c] + y;
    assert(s =~= x + (seq![c] + y));
    lemma_index_of_concat(x, seq![c] + y, c);
    lemma_index_of_at(seq![c] + y, c, 0);
    assert(s.subrange(0, x.len() as int) =~= x);
    assert(s.subrange(x.len() + 1 as int, s.len() as int) =~= y);
}

/// Position of the first `c` in `s` between `start` and `end`, or `end`.
pub fn find_char(s: &str, start: usize, end: usize, c: char) -> (r: usize)
    requires
        start <= end <= s@.len(),
    ensures
        start <= r <= end,
        r - start == index_of(s@.subrange(start as int, end as int), c),
{
    let ghost w = s@.subrange(start as int, end as int);
    let mut i: usize = start;
    while i < end
        invariant
            start <= i <= end,
            end <= s@.len(),
            w == s@.subrange(start as int, end as int),
            forall|j: int| 0 <= j < i - start ==> w[j] != c,
        ensures
            start <= i <= end,
            forall|j: int| 0 <= j < i - start ==> w[j] != c,
            i == end || w[i - start] == c,
        decreases end - i,
    {
        if s.get_char(i) == c {
            assert(w[i - start] == s@[i as int]);
            break;
        }
        i = i + 1;
    }
    proof {
        lemma_index_of_at(w, c, i - start);
    }
    i
}

/// Start of what follows the first `c` in `s` between `start` and `end`;
/// `end` when there is no `c` there.
pub fn skip_past(s: &str, start: usize, end: usize, c: char) -> (r: usize)
    requires
        start <= end <= s@.len(),
    ensures
        start <= r <= end,
        s@.subrange(r as int, end as int) == after_first(s@.subrange(start as int, end as int), c),
{
    let i = find_char(s, start, end, c);
    let ghost w = s@.subrange(start as int, end as int);
    if i < end {
        assert(w.subrange(i - start + 1, w.len() as int) =~= s@.subrange(i + 1, end as int));
        i + 1
    } else {
        assert(s@.subrange(end as int, end as int) =~= Seq::<char>::empty());
        end
    }
}

/// Whether the characters of `s` between `at` and `end` begin with `p`.
pub fn matches_at(s: &str, at: usize, end: usize, p: &str) -> (r: bool)
    requires
        at <= end <= s@.len(),
    ensures
        r == has_prefix(s@.subrange(at as int, end as int), p@),
{
    let m = p.unicode_len();
    let ghost t = s@.subrange(at as int, end as int);
    if end - at < m {
        return false;
    }
    let mut k: usize = 0;
    while k < m
        invariant
            k <= m,
            m == p@.len(),
            end <= s@.len(),
            at + m <= end,
            t == s@.subrange(at as int, end as int),
            forall|j: int| 0 <= j < k ==> t[j] == p@[j],
        decreases m - k,
    {
        if s.get_char(at + k) != p.get_char(k) {
            assert(t.subrange(0, m as int)[k as int] != p@[k as int]);
            return false;
        }
        k = k + 1;
    }
    assert(t.subrange(0, m as int) =~= p@);
    true
}


pub open spec fn is_digit(c: char) -> bool {
    '0' <= c <= '9'
}

pub open spec fn digit_value(c: char) -> nat {
    (c as int - '0' as int) as nat
}

/// Value of a sequence of decimal digits, most significant first.
pub open spec fn digits_value(s: Seq<char>) -> nat
    decreases s.len(),
{
    if s.len() == 0 {
        0
    } else {
        digits_value(s.drop_last()) * 10 + digit_value(s.last())
    }
}

pub open spec fn all_digits(s: Seq<char>) -> bool {
    forall|j: int| 0 <= j < s.len() ==> is_digit(#[trigger] s[j])
}

/// A decimal number as Rust's unsigned `from_str` reads it: an optional `+`
/// followed by at least one digit and nothing else.
pub open spec fn decimal_value(s: Seq<char>) -> Option<nat> {
    let d = if s.len() > 0 && s[0] == '+' {
        s.drop_first()
    } else {
        s
    };
    if d.len() > 0 && all_digits(d) {
        Some(digits_value(d))
    } else {
        None
    }
}

/// `decimal_value`, but `None` above `max` as well.
pub open spec fn bounded_decimal(s: Seq<char>, max: nat) -> Option<nat> {
    match decimal_value(s) {
        Some(v) => if v <= max {
            Some(v)
        } else {
            None
        },
        None => None,
    }
}

/// The `k`-th field (from 0) of `s` split at `c`; `None` when there are
/// fewer than `k + 1` fields.
pub open spec fn field(s: Seq<char>, c: char, k: nat) -> Option<Seq<char>>
    decreases k,
{
    if k == 0 {
        Some(before_first(s, c))
    } else if index_of(s, c) < s.len() {
        field(after_first(s, c), c, (k - 1) as nat)
    } else {
        None
    }
}

/// A longer run of digits is worth at least as much as its prefix.
pub proof fn lemma_digits_value_prefix(s: Seq<char>, k: int)
    requires
        0 <= k <= s.len(),
        all_digits(s),
    ensures
        digits_value(s.subrange(0, k)) <= digits_value(s),
    decreases s.len(),
{
    if k < s.len() {
        let t = s.drop_last();
        assert(t.subrange(0, k) =~= s.subrange(0, k));
        assert(all_digits(t)) by {
            assert forall|j: int| 0 <= j < t.len() implies is_digit(#[trigger] t[j]) by {
                assert(t[j] == s[j]);
            }
        }
        lemma_digits_value_prefix(t, k);
        let x = digits_value(t);
        assert(x * 10 >= x) by (nonlinear_arith);
    } else {
        assert(s.subrange(0, k) =~= s);
    }
}

/// Reads `s` between `start` and `end` as `decimal_value` does, giving
/// `None` for a value above `max`.
pub fn parse_decimal(s: &str, start: usize, end: usize, max: u32) -> (r: Option<u32>)
    requires
        start <= end <= s@.len(),
    ensures
        r matches Some(v) ==> bounded_decimal(s@.subrange(start as int, end as int), max as nat)
            == Some(v as nat),
        r is None ==> bounded_decimal(s@.subrange(start as int, end as int), max as nat) is None,
{
    let ghost w = s@.subrange(start as int, end as int);
    let mut a: usize = start;
    if start < end && s.get_char(start) == '+' {
        a = start + 1;
    }
    let ghost d = s@.subrange(a as int, end as int);
    assert(d =~= (if w.len() > 0 && w[0] == '+' { w.drop_first() } else { w }));
    if a == end {
        return None;
    }
    let mut v: u64 = 0;
    let mut i: usize = a;
    while i < end
        invariant
            a <= i <= end,
            end <= s@.len(),
            d == s@.subrange(a as int, end as int),
            w == s@.subrange(start as int, end as int),
            d == (if w.len() > 0 && w[0] == '+' { w.drop_first() } else { w }),
            d.len() > 0,
            v <= max,
            v == digits_value(s@.subrange(a as int, i as int)),
            all_digits(s@.subrange(a as int, i as int)),
        decreases end - i,
    {
        let c = s.get_char(i);
        if !('0' <= c && c <= '9') {
            assert(d[i - a] == c);
            assert(!is_digit(d[i - a]));
            assert(!all_digits(d));
            assert(decimal_value(w) is None);
            return None;
        }
        let ghost p = s@.subrange(a as int, i as int);
        let ghost q = s@.subrange(a as int, i + 1 as int);
        assert(q.drop_last() =~= p);
        assert(all_digits(q)) by {
            assert forall|j: int| 0 <= j < q.len() implies is_digit(#[trigger] q[j]) by {
                if j < p.len() {
                    assert(q[j] == p[j]);
                }
            }
        }
        let n = v * 10 + (c as u64 - '0' as u64);
        assert(n == digits_value(q));
        if n > max as u64 {
            proof {
                if all_digits(d) {
                    assert(d.subrange(0, i + 1 - a) =~= q);
                    lemma_digits_value_prefix(d, i + 1 - a);
                    assert(digits_value(d) > max);
                }
                assert(bounded_decimal(w, max as nat) is None);
            }
            return None;
        }
        v = n;
        i = i + 1;
    }
    assert(s@.subrange(a as int, i as int) =~= d);
    Some(v as u32)
}

/// Bounds of `field(s@.subrange(start, end), c, k)` inside `s`.
pub fn field_bounds(s: &str, start: usize, end: usize, c: char, k: usize) -> (r: Option<(usize, usize)>)
    requires
        start <= end <= s@.len(),
    ensures
        r is Some <==> field(s@.subrange(start as int, end as int), c, k as nat) is Some,
        r matches Some((a, b)) ==> a <= b <= end && field(s@.subrange(start as int, end as int), c, k as nat)
            == Some(s@.subrange(a as int, b as int)),
{
    let ghost w = s@.subrange(start as int, end as int);
    let mut cur: usize = start;
    let mut j: usize = 0;
    while j < k
        invariant
            start <= cur <= end,
            end <= s@.len(),
            j <= k,
            w == s@.subrange(start as int, end as int),
            field(w, c, k as nat) == field(s@.subrange(cur as int, end as int), c, (k - j) as nat),
        decreases k - j,
    {
        let i = find_char(s, cur, end, c);
        if i == end {
            return None;
        }
        let next = skip_past(s, cur, end, c);
        cur = next;
        j = j + 1;
    }
    let b = find_char(s, cur, end, c);
    assert(s@.subrange(cur as int, end as int).subrange(0, b - cur) =~= s@.subrange(cur as int, b as int));
    Some((cur, b))
}

} // verus!
