//! Character-level helpers shared by the parsers and renderers of the
//! crate: conversion between `str` and `Vec<char>`, Unicode whitespace,
//! trimming, UTF-8 byte lengths and decimal rendering of integers.
use vstd::prelude::*;

verus! {

/// The characters of `s`, in order.
pub fn chars_of(s: &str) -> (r: Vec<char>)
    ensures
        r@ == s@,
{
    broadcast use vstd::string::axiom_spec_iter;
    let mut out: Vec<char> = Vec::new();
    for c in it: s.chars()
        invariant
            it.seq() == s@,
            out@ == it.seq().take(it.index() as int),
    {
        out.push(c);
        assert(out@ =~= it.seq().take(it.index() + 1));
    }
    assert(out@ =~= s@);
    out
}

/// A `String` holding exactly the characters of `v` (`String::from_iter`).
#[verifier::external_body]
pub(crate) fn string_of(v: &[char]) -> (r: String)
    ensures
        r@ == v@,
{
    v.iter().collect()
}

/// The Unicode `White_Space` property, which is what `char::is_whitespace`
/// tests and what `str::trim` strips.
pub open spec fn is_space(c: char) -> bool {
    let u = c as u32;
    ||| 0x09 <= u <= 0x0D
    ||| u == 0x20
    ||| u == 0x85
    ||| u == 0xA0
    ||| u == 0x1680
    ||| 0x2000 <= u <= 0x200A
    ||| u == 0x2028
    ||| u == 0x2029
    ||| u == 0x202F
    ||| u == 0x205F
    ||| u == 0x3000
}

pub fn char_is_space(c: char) -> (r: bool)
    ensures
        r == is_space(c),
{
    let u = c as u32;
    (0x09 <= u && u <= 0x0D) || u == 0x20 || u == 0x85 || u == 0xA0 || u == 0x1680 || (0x2000
        <= u && u <= 0x200A) || u == 0x2028 || u == 0x2029 || u == 0x202F || u == 0x205F || u
        == 0x3000
}

/// `s` with its leading whitespace removed (`str::trim_start`).
pub open spec fn trim_start(s: Seq<char>) -> Seq<char>
    decreases s.len(),
{
    if s.len() > 0 && is_space(s[0]) {
        trim_start(s.drop_first())
    } else {
        s
    }
}

/// `s` with its trailing whitespace removed (`str::trim_end`).
pub open spec fn trim_end(s: Seq<char>) -> Seq<char>
    decreases s.len(),
{
    if s.len() > 0 && is_space(s.last()) {
        trim_end(s.drop_last())
    } else {
        s
    }
}

/// `s` with whitespace removed at both ends (`str::trim`).
pub open spec fn trim(s: Seq<char>) -> Seq<char> {
    trim_end(trim_start(s))
}

proof fn lemma_trim_start_skip(s: Seq<char>, i: int)
    requires
        0 <= i <= s.len(),
        forall|j: int| 0 <= j < i ==> is_space(#[trigger] s[j]),
    ensures
        trim_start(s) == trim_start(s.subrange(i, s.len() as int)),
    decreases i,
{
    if i > 0 {
        assert(s.drop_first().subrange(i - 1, s.drop_first().len() as int) =~= s.subrange(
            i,
            s.len() as int,
        ));
        lemma_trim_start_skip(s.drop_first(), i - 1);
    } else {
        assert(s.subrange(0, s.len() as int) =~= s);
    }
}

proof fn lemma_trim_end_skip(s: Seq<char>, e: int)
    requires
        0 <= e <= s.len(),
        forall|j: int| e <= j < s.len() ==> is_space(#[trigger] s[j]),
    ensures
        trim_end(s) == trim_end(s.subrange(0, e)),
    decreases s.len() - e,
{
    if e < s.len() {
        assert(s.drop_last().subrange(0, e) =~= s.subrange(0, e));
        lemma_trim_end_skip(s.drop_last(), e);
    } else {
        assert(s.subrange(0, e) =~= s);
    }
}

/// Positions `(start, end)` such that `v[start..end]` is `trim_start(v)`
/// (with `end == v.len()`) — the leading-whitespace cut.
pub fn trim_start_index(v: &Vec<char>, from: usize) -> (start: usize)
    requires
        from <= v.len(),
    ensures
        from <= start <= v.len(),
        trim_start(v@.subrange(from as int, v.len() as int)) == v@.subrange(
            start as int,
            v.len() as int,
        ),
{
    let mut i = from;
    while i < v.len() && char_is_space(v[i])
        invariant
            from <= i <= v.len(),
            forall|j: int| from <= j < i ==> is_space(#[trigger] v@[j]),
        decreases v.len() - i,
    {
        i = i + 1;
    }
    proof {
        let s = v@.subrange(from as int, v.len() as int);
        assert forall|j: int| 0 <= j < i - from implies is_space(#[trigger] s[j]) by {
            assert(s[j] == v@[from + j]);
        }
        lemma_trim_start_skip(s, i - from);
        assert(s.subrange(i - from, s.len() as int) =~= v@.subrange(i as int, v.len() as int));
        let t = v@.subrange(i as int, v.len() as int);
        if t.len() > 0 {
            assert(t[0] == v@[i as int]);
        }
    }
    i
}

/// Index `end` such that `v[from..end]` is `trim_end(v[from..to])`.
pub fn trim_end_index(v: &Vec<char>, from: usize, to: usize) -> (end: usize)
    requires
        from <= to <= v.len(),
    ensures
        from <= end <= to,
        trim_end(v@.subrange(from as int, to as int)) == v@.subrange(from as int, end as int),
{
    let mut e = to;
    while e > from && char_is_space(v[e - 1])
        invariant
            from <= e <= to <= v.len(),
            forall|j: int| e <= j < to ==> is_space(#[trigger] v@[j]),
        decreases e,
    {
        e = e - 1;
    }
    proof {
        let s = v@.subrange(from as int, to as int);
        assert forall|j: int| e - from <= j < s.len() implies is_space(#[trigger] s[j]) by {
            assert(s[j] == v@[from + j]);
        }
        lemma_trim_end_skip(s, e - from);
        assert(s.subrange(0, e - from) =~= v@.subrange(from as int, e as int));
        let t = v@.subrange(from as int, e as int);
        if t.len() > 0 {
            assert(t.last() == v@[e - 1]);
        }
    }
    e
}

/// Bounds `(start, end)` of `trim(v)` inside `v`.
pub fn trim_bounds(v: &Vec<char>) -> (r: (usize, usize))
    ensures
        r.0 <= r.1 <= v.len(),
        trim(v@) == v@.subrange(r.0 as int, r.1 as int),
{
    let s = trim_start_index(v, 0);
    assert(v@.subrange(0, v.len() as int) =~= v@);
    let e = trim_end_index(v, s, v.len());
    (s, e)
}

/// Bounds `(start, end)` of `trim(v[from..to])` inside `v`.
pub fn trim_in(v: &Vec<char>, from: usize, to: usize) -> (r: (usize, usize))
    requires
        from <= to <= v.len(),
    ensures
        from <= r.0 <= r.1 <= to,
        trim(v@.subrange(from as int, to as int)) == v@.subrange(r.0 as int, r.1 as int),
{
    let a = trim_start_in(v, from, to);
    let b = trim_end_index(v, a, to);
    (a, b)
}

/// Number of bytes of the UTF-8 encoding of `c`.
pub open spec fn utf8_width(c: char) -> nat {
    let u = c as u32;
    if u < 0x80 {
        1
    } else if u < 0x800 {
        2
    } else if u < 0x10000 {
        3
    } else {
        4
    }
}

/// Number of bytes of the UTF-8 encoding of `s` (what `str::len` returns).
pub open spec fn utf8_len(s: Seq<char>) -> nat
    decreases s.len(),
{
    if s.len() == 0 {
        0
    } else {
        utf8_len(s.drop_last()) + utf8_width(s.last())
    }
}

pub fn char_utf8_width(c: char) -> (r: usize)
    ensures
        r == utf8_width(c),
        1 <= r <= 4,
{
    let u = c as u32;
    if u < 0x80 {
        1
    } else if u < 0x800 {
        2
    } else if u < 0x10000 {
        3
    } else {
        4
    }
}

pub proof fn lemma_utf8_len_bound(s: Seq<char>)
    ensures
        s.len() <= utf8_len(s) <= 4 * s.len(),
    decreases s.len(),
{
    if s.len() > 0 {
        lemma_utf8_len_bound(s.drop_last());
    }
}

pub proof fn lemma_utf8_len_concat(a: Seq<char>, b: Seq<char>)
    ensures
        utf8_len(a + b) == utf8_len(a) + utf8_len(b),
    decreases b.len(),
{
    if b.len() > 0 {
        lemma_utf8_len_concat(a, b.drop_last());
        assert((a + b).drop_last() =~= a + b.drop_last());
        assert((a + b).last() == b.last());
    } else {
        assert(a + b =~= a);
    }
}

/// UTF-8 byte length of the characters `v[from..to]`.
pub fn utf8_len_of_range(v: &Vec<char>, from: usize, to: usize) -> (r: u128)
    requires
        from <= to <= v.len(),
    ensures
        r == utf8_len(v@.subrange(from as int, to as int)),
        r <= 4 * (to - from),
{
    let mut total: u128 = 0;
    let mut i: usize = from;
    assert(v@.subrange(from as int, from as int) =~= Seq::<char>::empty());
    while i < to
        invariant
            from <= i <= to <= v.len(),
            total == utf8_len(v@.subrange(from as int, i as int)),
            total <= 4 * (i - from),
        decreases to - i,
    {
        assert(v@.subrange(from as int, i + 1).drop_last() =~= v@.subrange(from as int, i as int));
        total = total + char_utf8_width(v[i]) as u128;
        i = i + 1;
    }
    total
}

/// UTF-8 byte length of the characters `v[0..n]`.
pub fn utf8_len_of(v: &Vec<char>, n: usize) -> (r: u128)
    requires
        n <= v.len(),
    ensures
        r == utf8_len(v@.subrange(0, n as int)),
{
    let mut total: u128 = 0;
    let mut i: usize = 0;
    while i < n
        invariant
            i <= n <= v.len(),
            total == utf8_len(v@.subrange(0, i as int)),
            total <= 4 * i,
        decreases n - i,
    {
        assert(v@.subrange(0, i + 1).drop_last() =~= v@.subrange(0, i as int));
        proof {
            lemma_utf8_len_bound(v@.subrange(0, i as int));
        }
        total = total + char_utf8_width(v[i]) as u128;
        i = i + 1;
    }
    total
}

/// ASCII digit character for a value below ten.
pub open spec fn digit_char(d: nat) -> char {
    ((d + 48) as u8) as char
}

/// Decimal rendering of `n`, without sign or leading zeros
/// (what `n.to_string()` gives for an unsigned integer).
pub open spec fn decimal(n: nat) -> Seq<char>
    decreases n,
{
    if n < 10 {
        seq![digit_char(n)]
    } else {
        decimal(n / 10).push(digit_char(n % 10))
    }
}

/// Appends the decimal rendering of `n` to `out`.
pub fn push_decimal(out: &mut Vec<char>, n: u128)
    ensures
        final(out)@ == old(out)@ + decimal(n as nat),
    decreases n,
{
    if n >= 10 {
        push_decimal(out, n / 10);
    }
    let d = (n % 10) as u8;
    let c = (d + 48) as char;
    assert(c == digit_char((n % 10) as nat));
    out.push(c);
    proof {
        if n >= 10 {
            assert(final(out)@ =~= old(out)@ + decimal(n as nat));
        } else {
            assert(final(out)@ =~= old(out)@ + decimal(n as nat));
        }
    }
}

/// `p` is a prefix of `s`.
pub open spec fn has_prefix(s: Seq<char>, p: Seq<char>) -> bool {
    p.len() <= s.len() && s.subrange(0, p.len() as int) == p
}

/// Exec test of [`has_prefix`] at offset `at` of `s`.
pub fn prefix_at(s: &Vec<char>, at: usize, p: &[char]) -> (r: bool)
    requires
        at <= s.len(),
    ensures
        r == has_prefix(s@.subrange(at as int, s.len() as int), p@),
{
    if p.len() > s.len() - at {
        return false;
    }
    let mut i: usize = 0;
    while i < p.len()
        invariant
            at <= s.len(),
            p.len() <= s.len() - at,
            i <= p.len(),
            forall|j: int| 0 <= j < i ==> s@[at + j] == p@[j],
        decreases p.len() - i,
    {
        if s[at + i] != p[i] {
            proof {
                let t = s@.subrange(at as int, s.len() as int);
                assert(t.subrange(0, p.len() as int)[i as int] != p@[i as int]);
            }
            return false;
        }
        i = i + 1;
    }
    proof {
        let t = s@.subrange(at as int, s.len() as int);
        assert(t.subrange(0, p@.len() as int) =~= p@);
    }
    true
}


/// Appends `src[from..to]` to `out`.
pub fn extend_chars(out: &mut Vec<char>, src: &[char], from: usize, to: usize)
    requires
        from <= to <= src.len(),
    ensures
        final(out)@ == old(out)@ + src@.subrange(from as int, to as int),
{
    let ghost o0 = out@;
    let mut k = from;
    while k < to
        invariant
            from <= k <= to <= src.len(),
            out@ == o0 + src@.subrange(from as int, k as int),
        decreases to - k,
    {
        out.push(src[k]);
        assert(out@ =~= o0 + src@.subrange(from as int, k + 1));
        k = k + 1;
    }
}

/// The characters `src[from..to]` as a `String`.
pub fn substring(src: &[char], from: usize, to: usize) -> (r: String)
    requires
        from <= to <= src.len(),
    ensures
        r@ == src@.subrange(from as int, to as int),
{
    let mut v: Vec<char> = Vec::new();
    extend_chars(&mut v, src, from, to);
    assert(v@ =~= src@.subrange(from as int, to as int));
    string_of(v.as_slice())
}


/// Index `start` such that `v[start..to]` is `trim_start(v[from..to])`.
pub fn trim_start_in(v: &Vec<char>, from: usize, to: usize) -> (start: usize)
    requires
        from <= to <= v.len(),
    ensures
        from <= start <= to,
        trim_start(v@.subrange(from as int, to as int)) == v@.subrange(start as int, to as int),
{
    let mut i = from;
    while i < to && char_is_space(v[i])
        invariant
            from <= i <= to <= v.len(),
            forall|j: int| from <= j < i ==> is_space(#[trigger] v@[j]),
        decreases to - i,
    {
        i = i + 1;
    }
    proof {
        let s = v@.subrange(from as int, to as int);
        assert forall|j: int| 0 <= j < i - from implies is_space(#[trigger] s[j]) by {
            assert(s[j] == v@[from + j]);
        }
        lemma_trim_start_skip(s, i - from);
        assert(s.subrange(i - from, s.len() as int) =~= v@.subrange(i as int, to as int));
        let t = v@.subrange(i as int, to as int);
        if t.len() > 0 {
            assert(t[0] == v@[i as int]);
        }
    }
    i
}

// ---------------------------------------------------------------------
// Ordering of strings
// ---------------------------------------------------------------------

/// `a` sorts strictly before `b`: the order of `String`'s `Ord`, which
/// compares code points left to right, a proper prefix first.
pub open spec fn lex_lt(a: Seq<char>, b: Seq<char>) -> bool
    decreases a.len(),
{
    if a.len() == 0 {
        b.len() > 0
    } else if b.len() == 0 {
        false
    } else if a[0] != b[0] {
        (a[0] as int) < (b[0] as int)
    } else {
        lex_lt(a.drop_first(), b.drop_first())
    }
}

/// No string sorts before itself, and of two strings at most one sorts
/// before the other.
pub proof fn lemma_lex_lt_asymmetric(a: Seq<char>, b: Seq<char>)
    ensures
        !(lex_lt(a, b) && lex_lt(b, a)),
        !lex_lt(a, a),
    decreases a.len(),
{
    if a.len() > 0 && b.len() > 0 && a[0] == b[0] {
        lemma_lex_lt_asymmetric(a.drop_first(), b.drop_first());
    }
    if a.len() > 0 {
        lemma_lex_lt_asymmetric(a.drop_first(), a.drop_first());
    }
}

/// Of two different strings, one sorts before the other.
pub proof fn lemma_lex_lt_total(a: Seq<char>, b: Seq<char>)
    requires
        a != b,
    ensures
        lex_lt(a, b) || lex_lt(b, a),
    decreases a.len(),
{
    if a.len() == 0 {
        if b.len() == 0 {
            assert(a =~= b);
        }
    } else if b.len() == 0 {
    } else if a[0] != b[0] {
    } else {
        if a.drop_first() == b.drop_first() {
            assert(a =~= seq![a[0]] + a.drop_first());
            assert(b =~= seq![b[0]] + b.drop_first());
        }
        lemma_lex_lt_total(a.drop_first(), b.drop_first());
    }
}

/// Sorting before is transitive.
pub proof fn lemma_lex_lt_transitive(a: Seq<char>, b: Seq<char>, c: Seq<char>)
    requires
        lex_lt(a, b),
        lex_lt(b, c),
    ensures
        lex_lt(a, c),
    decreases a.len(),
{
    if a.len() > 0 && b.len() > 0 && c.len() > 0 && a[0] == b[0] && b[0] == c[0] {
        lemma_lex_lt_transitive(a.drop_first(), b.drop_first(), c.drop_first());
    }
}

/// Whether `a` sorts strictly before `b` (see [`lex_lt`]).
pub fn str_lt(a: &str, b: &str) -> (r: bool)
    ensures
        r == lex_lt(a@, b@),
{
    let x = chars_of(a);
    let y = chars_of(b);
    let mut i: usize = 0;
    assert(x@.subrange(0, x.len() as int) =~= x@);
    assert(y@.subrange(0, y.len() as int) =~= y@);
    while i < x.len() && i < y.len() && x[i] == y[i]
        invariant
            i <= x.len(),
            i <= y.len(),
            x@ == a@,
            y@ == b@,
            lex_lt(a@, b@) == lex_lt(x@.subrange(i as int, x.len() as int), y@.subrange(i as int, y.len() as int)),
        decreases x.len() - i,
    {
        proof {
            let xs = x@.subrange(i as int, x.len() as int);
            let ys = y@.subrange(i as int, y.len() as int);
            assert(xs[0] == x@[i as int]);
            assert(ys[0] == y@[i as int]);
            assert(xs.drop_first() =~= x@.subrange(i + 1, x.len() as int));
            assert(ys.drop_first() =~= y@.subrange(i + 1, y.len() as int));
        }
        i = i + 1;
    }
    proof {
        let xs = x@.subrange(i as int, x.len() as int);
        let ys = y@.subrange(i as int, y.len() as int);
        if i < x.len() && i < y.len() {
            assert(xs[0] == x@[i as int]);
            assert(ys[0] == y@[i as int]);
        }
    }
    if i == x.len() {
        i < y.len()
    } else if i == y.len() {
        false
    } else {
        x[i] < y[i]
    }
}

/// `s` lists exactly the strings of `g`, in strictly increasing order.
pub open spec fn sorted_listing(s: Seq<Seq<char>>, g: Set<Seq<char>>) -> bool {
    &&& forall|a: int, b: int| 0 <= a < b < s.len() ==> lex_lt(#[trigger] s[a], #[trigger] s[b])
    &&& forall|p: Seq<char>| g.contains(p) <==> #[trigger] s.contains(p)
}

/// A set of strings has one sorted listing at most.
pub proof fn lemma_sorted_listing_unique(s1: Seq<Seq<char>>, s2: Seq<Seq<char>>, g: Set<Seq<char>>)
    requires
        sorted_listing(s1, g),
        sorted_listing(s2, g),
    ensures
        s1 == s2,
    decreases s1.len(),
{
    if s1.len() == 0 {
        if s2.len() > 0 {
            assert(s2.contains(s2[0]));
            assert(g.contains(s2[0]));
            assert(!s1.contains(s2[0]));
        }
        assert(s1 =~= s2);
    } else {
        assert(s1.contains(s1[0]));
        assert(g.contains(s1[0]));
        assert(s2.contains(s1[0]));
        assert(s2.len() > 0);
        assert(s2.contains(s2[0]));
        let h1 = s1[0];
        let h2 = s2[0];
        if h1 != h2 {
            assert(s1.contains(h2));
            let i = choose|i: int| 0 <= i < s1.len() && s1[i] == h2;
            assert(lex_lt(s1[0], s1[i]));
            assert(s2.contains(h1));
            let j = choose|j: int| 0 <= j < s2.len() && s2[j] == h1;
            assert(lex_lt(s2[0], s2[j]));
            lemma_lex_lt_asymmetric(h1, h2);
        }
        let g2 = g.remove(h1);
        let t1 = s1.drop_first();
        let t2 = s2.drop_first();
        assert forall|p: Seq<char>| g2.contains(p) <==> #[trigger] t1.contains(p) by {
            if t1.contains(p) {
                let k = choose|k: int| 0 <= k < t1.len() && t1[k] == p;
                assert(s1[k + 1] == p);
                assert(lex_lt(s1[0], s1[k + 1]));
                lemma_lex_lt_asymmetric(h1, h1);
                assert(s1.contains(p));
            }
            if g2.contains(p) {
                assert(s1.contains(p));
                let k = choose|k: int| 0 <= k < s1.len() && s1[k] == p;
                assert(k != 0);
                assert(t1[k - 1] == p);
            }
        }
        assert forall|p: Seq<char>| g2.contains(p) <==> #[trigger] t2.contains(p) by {
            if t2.contains(p) {
                let k = choose|k: int| 0 <= k < t2.len() && t2[k] == p;
                assert(s2[k + 1] == p);
                assert(lex_lt(s2[0], s2[k + 1]));
                lemma_lex_lt_asymmetric(h1, h1);
                assert(s2.contains(p));
            }
            if g2.contains(p) {
                assert(s2.contains(p));
                let k = choose|k: int| 0 <= k < s2.len() && s2[k] == p;
                assert(k != 0);
                assert(t2[k - 1] == p);
            }
        }
        assert forall|a: int, b: int| 0 <= a < b < t1.len() implies lex_lt(#[trigger] t1[a], #[trigger] t1[b]) by {
            assert(t1[a] == s1[a + 1] && t1[b] == s1[b + 1]);
        }
        assert forall|a: int, b: int| 0 <= a < b < t2.len() implies lex_lt(#[trigger] t2[a], #[trigger] t2[b]) by {
            assert(t2[a] == s2[a + 1] && t2[b] == s2[b + 1]);
        }
        lemma_sorted_listing_unique(t1, t2, g2);
        assert(s1 =~= seq![h1] + t1);
        assert(s2 =~= seq![h2] + t2);
    }
}

} // verus!
