//! Notifier rules: which events a rule applies to, and its optional
//! `when` filter — exactly one `<field> <op> <literal>` comparison.
//!
//! A `when` expression is parsed once at configuration load; an invalid
//! one disables just its rule. Numeric literals are validated here against
//! the decimal grammar that `f64::from_str` accepts and kept as text; the
//! numeric comparison itself is made where the event's fields are read.
use vstd::prelude::*;
use crate::text::{chars_of, string_of, substring, trim_end_index, trim_start_in};
use crate::event_key::{JsonObject, JsonValue, find_field};

verus! {

/// One user-defined rule.
#[derive(Clone, Debug)]
pub struct Rule {
    /// Event type names this rule applies to; empty means every type.
    pub on: Vec<String>,
    /// Optional filter expression (`<field> <op> <literal>`).
    pub when: Option<String>,
    /// Title template.
    pub title: String,
    /// Body template.
    pub body: String,
    /// Per-rule override of the configured debounce window.
    pub debounce_ms: Option<u64>,
}


/// Comparison operator of a `when` expression.
#[derive(Clone, Copy, Debug, PartialEq, Eq, Structural)]
pub enum Op {
    Eq,
    Ne,
    Ge,
    Le,
    Gt,
    Lt,
}

/// Right-hand side of a `when` expression: a string, or a numeric
/// literal kept as its (validated) decimal text.
#[derive(Clone, Debug, PartialEq, Eq)]
pub enum Literal {
    Str(String),
    Num(String),
}

/// Why a `when` expression was rejected.
#[derive(Clone, Debug, PartialEq, Eq)]
pub struct ParseError(pub String);

/// Parsed `when` expression.
#[derive(Clone, Debug)]
pub struct CompiledWhen {
    pub field: String,
    pub op: Op,
    pub literal: Literal,
}

/// Compiled form of a rule, built once at startup.
#[derive(Clone, Debug)]
pub struct CompiledRule {
    pub on: Vec<String>,
    pub when: Option<CompiledWhen>,
    pub title: String,
    pub body: String,
    pub debounce_ms: Option<u64>,
    /// Index in the user's rule list; the first half of the debounce key.
    pub idx: usize,
    /// The user's `when` failed to parse; such a rule never matches.
    pub disabled: bool,
    /// Why the rule is disabled.
    pub disable_reason: Option<String>,
}

/// How a field's numeric value compares with a numeric literal.
#[derive(Clone, Copy, Debug, PartialEq, Eq, Structural)]
pub enum NumOrder {
    Less,
    Equal,
    Greater,
}

pub enum LiteralModel {
    Str(Seq<char>),
    Num(Seq<char>),
}

pub open spec fn literal_model(l: Literal) -> LiteralModel {
    match l {
        Literal::Str(s) => LiteralModel::Str(s@),
        Literal::Num(s) => LiteralModel::Num(s@),
    }
}

pub open spec fn is_digit(c: char) -> bool {
    '0' <= c <= '9'
}

pub open spec fn is_ident_char(c: char) -> bool {
    ('a' <= c <= 'z') || ('A' <= c <= 'Z') || is_digit(c) || c == '_'
}

/// Number of leading identifier characters of `s`.
pub open spec fn ident_len(s: Seq<char>) -> nat
    decreases s.len(),
{
    if s.len() > 0 && is_ident_char(s[0]) {
        1 + ident_len(s.drop_first())
    } else {
        0
    }
}

/// Number of leading ASCII digits of `s`.
pub open spec fn digits_len(s: Seq<char>) -> nat
    decreases s.len(),
{
    if s.len() > 0 && is_digit(s[0]) {
        1 + digits_len(s.drop_first())
    } else {
        0
    }
}

pub open spec fn ascii_lower(c: char) -> char {
    if 'A' <= c <= 'Z' {
        ((c as u32) + 32) as char
    } else {
        c
    }
}

/// `s` equals the lower-case word `w`, ignoring ASCII case.
pub open spec fn eq_ignore_case(s: Seq<char>, w: Seq<char>) -> bool {
    s.len() == w.len() && forall|i: int| 0 <= i < s.len() ==> ascii_lower(#[trigger] s[i]) == w[i]
}

/// Optional exponent: empty, or `e`/`E`, an optional sign and digits.
pub open spec fn is_exponent(s: Seq<char>) -> bool {
    s.len() == 0 || ((s[0] == 'e' || s[0] == 'E') && {
        let t = s.drop_first();
        let u = if t.len() > 0 && (t[0] == '+' || t[0] == '-') {
            t.drop_first()
        } else {
            t
        };
        u.len() > 0 && digits_len(u) == u.len()
    })
}

/// An unsigned decimal number: digits, optionally a point and digits
/// (at least one digit overall), then an optional exponent.
pub open spec fn is_unsigned_number(s: Seq<char>) -> bool {
    let d1 = digits_len(s);
    let after = s.subrange(d1 as int, s.len() as int);
    if after.len() > 0 && after[0] == '.' {
        let frac = after.drop_first();
        let d2 = digits_len(frac);
        d1 + d2 > 0 && is_exponent(frac.subrange(d2 as int, frac.len() as int))
    } else {
        d1 > 0 && is_exponent(after)
    }
}

/// The strings `f64::from_str` accepts: an optional sign, then `inf`,
/// `infinity`, `nan` (any ASCII case) or a decimal number.
pub open spec fn is_float_literal(s: Seq<char>) -> bool {
    let b = if s.len() > 0 && (s[0] == '+' || s[0] == '-') {
        s.drop_first()
    } else {
        s
    };
    eq_ignore_case(b, "inf"@) || eq_ignore_case(b, "infinity"@) || eq_ignore_case(b, "nan"@) || is_unsigned_number(b)
}

/// Operator at the start of `s` and its length; two-character operators
/// are tried first.
pub open spec fn op_prefix(s: Seq<char>) -> Option<(Op, nat)> {
    if s.len() >= 2 && s[0] == '=' && s[1] == '=' {
        Some((Op::Eq, 2))
    } else if s.len() >= 2 && s[0] == '!' && s[1] == '=' {
        Some((Op::Ne, 2))
    } else if s.len() >= 2 && s[0] == '>' && s[1] == '=' {
        Some((Op::Ge, 2))
    } else if s.len() >= 2 && s[0] == '<' && s[1] == '=' {
        Some((Op::Le, 2))
    } else if s.len() >= 1 && s[0] == '>' {
        Some((Op::Gt, 1))
    } else if s.len() >= 1 && s[0] == '<' {
        Some((Op::Lt, 1))
    } else {
        None
    }
}

/// First index of `"` in `s`.
pub open spec fn quote_index(s: Seq<char>, from: int) -> Option<int>
    decreases s.len() - from,
{
    if from < 0 || from >= s.len() {
        None
    } else if s[from] == '"' {
        Some(from)
    } else {
        quote_index(s, from + 1)
    }
}

/// The literal part of a `when` expression, or the error message.
pub open spec fn literal_result(lit: Seq<char>, src: Seq<char>) -> Result<LiteralModel, Seq<char>> {
    if lit.len() == 0 {
        Err("missing literal in: "@ + src)
    } else if lit[0] == '"' {
        let q = lit.drop_first();
        match quote_index(q, 0) {
            None => Err("unterminated string literal in: "@ + src),
            Some(end) => if crate::text::trim(q.subrange(end + 1, q.len() as int)).len() != 0 {
                Err("trailing tokens after literal in: "@ + src)
            } else {
                Ok(LiteralModel::Str(q.subrange(0, end)))
            },
        }
    } else if is_float_literal(lit) {
        Ok(LiteralModel::Num(lit))
    } else {
        Err("invalid numeric literal in: "@ + src)
    }
}

/// What parsing the `when` expression `src` yields: field, operator and
/// literal, or the error message.
pub open spec fn when_result(src: Seq<char>) -> Result<(Seq<char>, Op, LiteralModel), Seq<char>> {
    let s = crate::text::trim(src);
    let n = ident_len(s);
    if s.len() == 0 {
        Err("empty when expression"@)
    } else if n == s.len() {
        Err("missing operator in: "@ + src)
    } else if n == 0 || ('0' <= s[0] && s[0] <= '9') {
        Err("expected field name in: "@ + src)
    } else {
        let rest = crate::text::trim_start(s.subrange(n as int, s.len() as int));
        match op_prefix(rest) {
            None => Err("unknown operator in: "@ + src),
            Some((op, k)) => match literal_result(crate::text::trim(rest.subrange(k as int, rest.len() as int)), src) {
                Ok(l) => Ok((s.subrange(0, n as int), op, l)),
                Err(m) => Err(m),
            },
        }
    }
}

proof fn lemma_ident_len_at(s: Seq<char>, i: int)
    requires
        0 <= i <= s.len(),
        forall|j: int| 0 <= j < i ==> is_ident_char(#[trigger] s[j]),
    ensures
        i == s.len() || !is_ident_char(s[i]) ==> ident_len(s) == i,
    decreases i,
{
    if i > 0 {
        lemma_ident_len_at(s.drop_first(), i - 1);
    }
}

proof fn lemma_digits_len_at(s: Seq<char>, i: int)
    requires
        0 <= i <= s.len(),
        forall|j: int| 0 <= j < i ==> is_digit(#[trigger] s[j]),
    ensures
        i == s.len() || !is_digit(s[i]) ==> digits_len(s) == i,
    decreases i,
{
    if i > 0 {
        lemma_digits_len_at(s.drop_first(), i - 1);
    }
}

proof fn lemma_quote_index(s: Seq<char>, from: int)
    requires
        0 <= from,
    ensures
        match quote_index(s, from) {
            Some(e) => from <= e < s.len() && s[e] == '"' && forall|k: int| from <= k < e ==> s[k] != '"',
            None => forall|k: int| from <= k < s.len() ==> s[k] != '"',
        },
    decreases s.len() - from,
{
    if from < s.len() && s[from] != '"' {
        lemma_quote_index(s, from + 1);
    }
}

/// Count of digits of `v` starting at `from` (bounded by `to`).
fn scan_digits(v: &Vec<char>, from: usize, to: usize) -> (r: usize)
    requires
        from <= to <= v.len(),
    ensures
        from <= r <= to,
        digits_len(v@.subrange(from as int, to as int)) == r - from,
{
    let mut i = from;
    while i < to && '0' <= v[i] && v[i] <= '9'
        invariant
            from <= i <= to <= v.len(),
            forall|j: int| from <= j < i ==> is_digit(#[trigger] v@[j]),
        decreases to - i,
    {
        i = i + 1;
    }
    proof {
        let s = v@.subrange(from as int, to as int);
        assert forall|j: int| 0 <= j < i - from implies is_digit(#[trigger] s[j]) by {
            assert(s[j] == v@[from + j]);
        }
        lemma_digits_len_at(s, i - from);
    }
    i
}

fn lower_is(v: &Vec<char>, from: usize, to: usize, w: &str) -> (r: bool)
    requires
        from <= to <= v.len(),
    ensures
        r == eq_ignore_case(v@.subrange(from as int, to as int), w@),
{
    let wc = chars_of(w);
    if to - from != wc.len() {
        return false;
    }
    let mut i: usize = 0;
    while i < wc.len()
        invariant
            to - from == wc.len(),
            from <= to <= v.len(),
            wc@ == w@,
            i <= wc.len(),
            forall|j: int| 0 <= j < i ==> ascii_lower(#[trigger] v@[from + j]) == wc@[j],
        decreases wc.len() - i,
    {
        let c = v[from + i];
        let l = if 'A' <= c && c <= 'Z' {
            ((c as u32) + 32) as u8 as char
        } else {
            c
        };
        assert(l == ascii_lower(c)) by {
            if 'A' <= c && c <= 'Z' {
                assert(((c as u32) + 32) as u8 as char == ((c as u32) + 32) as char);
            }
        }
        if l != wc[i] {
            proof {
                let s = v@.subrange(from as int, to as int);
                assert(s[i as int] == v@[from + i]);
            }
            return false;
        }
        i = i + 1;
    }
    proof {
        let s = v@.subrange(from as int, to as int);
        assert forall|j: int| 0 <= j < s.len() implies ascii_lower(#[trigger] s[j]) == w@[j] by {
            assert(s[j] == v@[from + j]);
        }
    }
    true
}

/// Whether `v[from..to]` is an optional exponent.
fn exponent_ok(v: &Vec<char>, from: usize, to: usize) -> (r: bool)
    requires
        from <= to <= v.len(),
    ensures
        r == is_exponent(v@.subrange(from as int, to as int)),
{
    let ghost e = v@.subrange(from as int, to as int);
    if from == to {
        return true;
    }
    if !(v[from] == 'e' || v[from] == 'E') {
        return false;
    }
    let mut k = from + 1;
    if k < to && (v[k] == '+' || v[k] == '-') {
        k = k + 1;
    }
    proof {
        let t = e.drop_first();
        assert(t =~= v@.subrange(from + 1, to as int));
        if from + 1 < to && (v@[from + 1] == '+' || v@[from + 1] == '-') {
            assert(t.drop_first() =~= v@.subrange(k as int, to as int));
        }
    }
    if k == to {
        return false;
    }
    let d3 = scan_digits(v, k, to);
    d3 == to
}

/// Whether `v[from..to]` is an unsigned decimal number.
fn unsigned_number_ok(v: &Vec<char>, from: usize, to: usize) -> (r: bool)
    requires
        from <= to <= v.len(),
    ensures
        r == is_unsigned_number(v@.subrange(from as int, to as int)),
{
    let ghost bs = v@.subrange(from as int, to as int);
    let d1 = scan_digits(v, from, to);
    proof {
        assert(bs.subrange((d1 - from) as int, bs.len() as int) =~= v@.subrange(d1 as int, to as int));
    }
    if d1 < to && v[d1] == '.' {
        let d2 = scan_digits(v, d1 + 1, to);
        proof {
            let after = v@.subrange(d1 as int, to as int);
            assert(after.drop_first() =~= v@.subrange(d1 + 1, to as int));
            let frac = after.drop_first();
            assert(frac.subrange((d2 - d1 - 1) as int, frac.len() as int) =~= v@.subrange(d2 as int, to as int));
        }
        (d1 - from) + (d2 - d1 - 1) > 0 && exponent_ok(v, d2, to)
    } else {
        d1 - from > 0 && exponent_ok(v, d1, to)
    }
}

/// Whether `v[from..to]` is accepted by `f64::from_str`.
pub fn float_literal_ok(v: &Vec<char>, from: usize, to: usize) -> (r: bool)
    requires
        from <= to <= v.len(),
    ensures
        r == is_float_literal(v@.subrange(from as int, to as int)),
{
    let ghost s = v@.subrange(from as int, to as int);
    let b = if from < to && (v[from] == '+' || v[from] == '-') {
        from + 1
    } else {
        from
    };
    let ghost bs = v@.subrange(b as int, to as int);
    proof {
        if from < to && (v@[from as int] == '+' || v@[from as int] == '-') {
            assert(s.drop_first() =~= bs);
        } else {
            assert(s =~= bs);
        }
    }
    lower_is(v, b, to, "inf") || lower_is(v, b, to, "infinity") || lower_is(v, b, to, "nan")
        || unsigned_number_ok(v, b, to)
}

/// Appends the characters of `s` to `out`.
fn push_str(out: &mut Vec<char>, s: &str)
    ensures
        final(out)@ == old(out)@ + s@,
{
    let c = chars_of(s);
    crate::text::extend_chars(out, c.as_slice(), 0, c.len());
    assert(c@.subrange(0, c@.len() as int) =~= c@);
}

fn error_with_source(prefix: &str, src: &str) -> (r: ParseError)
    ensures
        r.0@ == prefix@ + src@,
{
    let mut v: Vec<char> = Vec::new();
    push_str(&mut v, prefix);
    push_str(&mut v, src);
    assert(v@ =~= prefix@ + src@);
    ParseError(string_of(v.as_slice()))
}

/// Parses a `when` expression: `<field> <op> <literal>`, where the field
/// is an identifier (an ASCII letter or `_`, then ASCII letters, digits
/// and `_`), the operator one of
/// `== != >= <= > <`, and the literal a double-quoted string or a number.
/// Whitespace around the parts is ignored.
pub fn parse_when(src: &str) -> (r: Result<CompiledWhen, ParseError>)
    ensures
        match r {
            Ok(w) => when_result(src@) == Ok::<(Seq<char>, Op, LiteralModel), Seq<char>>((w.field@, w.op, literal_model(w.literal))),
            Err(e) => when_result(src@) == Err::<(Seq<char>, Op, LiteralModel), Seq<char>>(e.0@),
        },
{
    let v = chars_of(src);
    let (s0, s1) = crate::text::trim_bounds(&v);
    let ghost s = v@.subrange(s0 as int, s1 as int);
    if s0 == s1 {
        return Err(ParseError(String::from_str("empty when expression")));
    }
    // Identifier.
    let mut i = s0;
    while i < s1 && (('a' <= v[i] && v[i] <= 'z') || ('A' <= v[i] && v[i] <= 'Z') || ('0' <= v[i] && v[i] <= '9') || v[i] == '_')
        invariant
            s0 <= i <= s1 <= v.len(),
            forall|j: int| s0 <= j < i ==> is_ident_char(#[trigger] v@[j]),
        decreases s1 - i,
    {
        i = i + 1;
    }
    proof {
        assert forall|j: int| 0 <= j < i - s0 implies is_ident_char(#[trigger] s[j]) by {
            assert(s[j] == v@[s0 + j]);
        }
        if i < s1 {
            assert(s[i - s0] == v@[i as int]);
        }
        lemma_ident_len_at(s, i - s0);
    }
    if i == s1 {
        return Err(error_with_source("missing operator in: ", src));
    }
    if i == s0 || ('0' <= v[s0] && v[s0] <= '9') {
        proof {
            assert(s[0] == v@[s0 as int]);
        }
        return Err(error_with_source("expected field name in: ", src));
    }
    let field = substring(v.as_slice(), s0, i);
    assert(field@ =~= s.subrange(0, (i - s0) as int));
    // Operator.
    let rs = trim_start_in(&v, i, s1);
    proof {
        assert(s.subrange((i - s0) as int, s.len() as int) =~= v@.subrange(i as int, s1 as int));
    }
    let ghost rest = v@.subrange(rs as int, s1 as int);
    let avail = s1 - rs;
    let c0 = if avail >= 1 { v[rs] } else { ' ' };
    let c1 = if avail >= 2 { v[rs + 1] } else { ' ' };
    let (op, k) = if avail >= 2 && c0 == '=' && c1 == '=' {
        (Op::Eq, 2usize)
    } else if avail >= 2 && c0 == '!' && c1 == '=' {
        (Op::Ne, 2)
    } else if avail >= 2 && c0 == '>' && c1 == '=' {
        (Op::Ge, 2)
    } else if avail >= 2 && c0 == '<' && c1 == '=' {
        (Op::Le, 2)
    } else if avail >= 1 && c0 == '>' {
        (Op::Gt, 1)
    } else if avail >= 1 && c0 == '<' {
        (Op::Lt, 1)
    } else {
        return Err(error_with_source("unknown operator in: ", src));
    };
    assert(op_prefix(rest) == Some((op, k as nat)));
    // Literal.
    let ls = trim_start_in(&v, rs + k, s1);
    let le = trim_end_index(&v, ls, s1);
    proof {
        assert(rest.subrange(k as int, rest.len() as int) =~= v@.subrange(rs + k, s1 as int));
    }
    let ghost lit = v@.subrange(ls as int, le as int);
    if ls == le {
        return Err(error_with_source("missing literal in: ", src));
    }
    if v[ls] == '"' {
        let mut e = ls + 1;
        while e < le && v[e] != '"'
            invariant
                ls + 1 <= e <= le <= v.len(),
                forall|j: int| ls + 1 <= j < e ==> v@[j] != '"',
            decreases le - e,
        {
            e = e + 1;
        }
        let ghost q = lit.drop_first();
        proof {
            assert(q =~= v@.subrange(ls + 1, le as int));
            lemma_quote_index(q, 0);
        }
        if e == le {
            proof {
                if quote_index(q, 0) is Some {
                    let x = quote_index(q, 0)->0;
                    assert(q[x] == v@[ls + 1 + x]);
                }
            }
            return Err(error_with_source("unterminated string literal in: ", src));
        }
        proof {
            let x = e - ls - 1;
            assert(q[x] == v@[e as int]);
            if quote_index(q, 0)->0 < x {
                let y = quote_index(q, 0)->0;
                assert(q[y] == v@[ls + 1 + y]);
            }
            assert(quote_index(q, 0) == Some(x));
        }
        let ts = trim_start_in(&v, e + 1, le);
        let te = trim_end_index(&v, ts, le);
        proof {
            let x = e - ls - 1;
            assert(q.subrange(x + 1, q.len() as int) =~= v@.subrange(e + 1, le as int));
        }
        if ts != te {
            return Err(error_with_source("trailing tokens after literal in: ", src));
        }
        let text = substring(v.as_slice(), ls + 1, e);
        proof {
            let x = e - ls - 1;
            assert(text@ =~= q.subrange(0, x));
        }
        return Ok(CompiledWhen { field, op, literal: Literal::Str(text) });
    }
    if !float_literal_ok(&v, ls, le) {
        return Err(error_with_source("invalid numeric literal in: ", src));
    }
    let text = substring(v.as_slice(), ls, le);
    Ok(CompiledWhen { field, op, literal: Literal::Num(text) })
}


/// The compiled form of a `when` source, as a model.
pub open spec fn when_model(w: CompiledWhen) -> (Seq<char>, Op, LiteralModel) {
    (w.field@, w.op, literal_model(w.literal))
}

/// `c` is the compiled form of rule `r` at index `idx`: fields copied, and
/// `when` parsed, or the rule disabled with the parse error as reason.
pub open spec fn compiled_from(c: CompiledRule, r: Rule, idx: int) -> bool {
    &&& c.on@.len() == r.on@.len()
    &&& forall|j: int| 0 <= j < r.on@.len() ==> (#[trigger] c.on@[j])@ == r.on@[j]@
    &&& c.title@ == r.title@
    &&& c.body@ == r.body@
    &&& c.debounce_ms == r.debounce_ms
    &&& c.idx == idx
    &&& match r.when {
        None => c.when is None && !c.disabled && c.disable_reason is None,
        Some(src) => match when_result(src@) {
            Ok(m) => !c.disabled && c.disable_reason is None && (c.when matches Some(w) && when_model(w) == m),
            Err(msg) => c.when is None && c.disabled && (c.disable_reason matches Some(reason) && reason@ == msg),
        },
    }
}

fn clone_names(v: &Vec<String>) -> (r: Vec<String>)
    ensures
        r@.len() == v@.len(),
        forall|j: int| 0 <= j < v@.len() ==> (#[trigger] r@[j])@ == v@[j]@,
{
    let mut r: Vec<String> = Vec::new();
    let mut i: usize = 0;
    while i < v.len()
        invariant
            i <= v.len(),
            r@.len() == i,
            forall|j: int| 0 <= j < i ==> (#[trigger] r@[j])@ == v@[j]@,
        decreases v.len() - i,
    {
        r.push(v[i].clone());
        i = i + 1;
    }
    r
}

/// Compiles one rule found at index `idx`.
fn compile_one(r: &Rule, idx: usize) -> (c: CompiledRule)
    ensures
        compiled_from(c, *r, idx as int),
{
    let (when, disabled, reason) = match &r.when {
        None => (None, false, None),
        Some(src) => match parse_when(src.as_str()) {
            Ok(w) => (Some(w), false, None),
            Err(e) => (None, true, Some(e.0)),
        },
    };
    CompiledRule {
        on: clone_names(&r.on),
        when,
        title: r.title.clone(),
        body: r.body.clone(),
        debounce_ms: r.debounce_ms,
        idx,
        disabled,
        disable_reason: reason,
    }
}

/// Compiles the user's rules in order. A rule whose `when` does not parse
/// is kept, disabled, with the parse error as its reason.
pub fn compile(rules: Vec<Rule>) -> (r: Vec<CompiledRule>)
    ensures
        r@.len() == rules@.len(),
        forall|i: int| 0 <= i < rules@.len() ==> compiled_from(#[trigger] r@[i], rules@[i], i),
{
    let mut out: Vec<CompiledRule> = Vec::new();
    let mut i: usize = 0;
    while i < rules.len()
        invariant
            i <= rules.len(),
            out@.len() == i,
            forall|j: int| 0 <= j < i ==> compiled_from(#[trigger] out@[j], rules@[j], j),
        decreases rules.len() - i,
    {
        out.push(compile_one(&rules[i], i));
        i = i + 1;
    }
    out
}

/// Whether `op` holds between two numbers with the given order; `None`
/// means unordered (a NaN), where only `!=` holds.
pub open spec fn op_holds(op: Op, order: Option<NumOrder>) -> bool {
    match order {
        None => op == Op::Ne,
        Some(o) => match op {
            Op::Eq => o == NumOrder::Equal,
            Op::Ne => o != NumOrder::Equal,
            Op::Ge => o != NumOrder::Less,
            Op::Le => o != NumOrder::Greater,
            Op::Gt => o == NumOrder::Greater,
            Op::Lt => o == NumOrder::Less,
        },
    }
}

/// Numeric comparison by the order of its two sides.
pub fn cmp_num(order: Option<NumOrder>, op: Op) -> (r: bool)
    ensures
        r == op_holds(op, order),
{
    match order {
        None => op == Op::Ne,
        Some(o) => match op {
            Op::Eq => o == NumOrder::Equal,
            Op::Ne => o != NumOrder::Equal,
            Op::Ge => o != NumOrder::Less,
            Op::Le => o != NumOrder::Greater,
            Op::Gt => o == NumOrder::Greater,
            Op::Lt => o == NumOrder::Less,
        },
    }
}

/// Text a field value is compared as against a string literal.
pub open spec fn text_operand(v: JsonValue) -> Option<Seq<char>> {
    match v {
        JsonValue::Str(s) => Some(s@),
        JsonValue::Number(t) => Some(t@),
        JsonValue::Bool(b) => Some(if b {
            "true"@
        } else {
            "false"@
        }),
        _ => None,
    }
}

/// A string literal compares by `==` and `!=` only; other operators, and
/// values with no text, do not match.
pub open spec fn str_holds(op: Op, rhs: Seq<char>, v: JsonValue) -> bool {
    match text_operand(v) {
        None => false,
        Some(lhs) => match op {
            Op::Eq => lhs == rhs,
            Op::Ne => lhs != rhs,
            _ => false,
        },
    }
}

/// The payload value the `when` expression reads.
pub open spec fn when_operand(when: CompiledWhen, ctx: Option<Seq<(String, JsonValue)>>) -> Option<JsonValue> {
    match ctx {
        None => None,
        Some(f) => crate::event_key::field_value(f, when.field@),
    }
}

/// Whether `when` holds of the payload. `numeric` is, for a numeric
/// literal, how the field's numeric value compares with it (`None` when
/// the field has no numeric value; `Some(None)` when they are unordered).
pub open spec fn when_holds(when: CompiledWhen, ctx: Option<Seq<(String, JsonValue)>>, numeric: Option<Option<NumOrder>>) -> bool {
    match when_operand(when, ctx) {
        None => false,
        Some(v) => match when.literal {
            Literal::Str(rhs) => str_holds(when.op, rhs@, v),
            Literal::Num(_) => match numeric {
                None => false,
                Some(order) => op_holds(when.op, order),
            },
        },
    }
}

pub open spec fn object_model(ctx: JsonObject) -> Option<Seq<(String, JsonValue)>> {
    match ctx {
        Some(f) => Some(f@),
        None => None,
    }
}

/// The value of the field `when` reads, when the payload is an object
/// that has it.
pub fn when_field<'a>(when: &CompiledWhen, ctx: &'a JsonObject) -> (r: Option<&'a JsonValue>)
    ensures
        match r {
            Some(v) => when_operand(*when, object_model(*ctx)) == Some(*v),
            None => when_operand(*when, object_model(*ctx)) is None,
        },
{
    match ctx {
        None => None,
        Some(f) => find_field(f, when.field.as_str()),
    }
}

fn text_equals(v: &JsonValue, rhs: &String) -> (r: Option<bool>)
    ensures
        match text_operand(*v) {
            None => r is None,
            Some(t) => r == Some(t == rhs@),
        },
{
    match v {
        JsonValue::Str(s) => Some(*s == *rhs),
        JsonValue::Number(t) => Some(*t == *rhs),
        JsonValue::Bool(b) => {
            let t = if *b {
                String::from_str("true")
            } else {
                String::from_str("false")
            };
            Some(t == *rhs)
        },
        _ => None,
    }
}

/// Evaluates a compiled `when` against the payload.
pub fn eval_when(when: &CompiledWhen, ctx: &JsonObject, numeric: Option<Option<NumOrder>>) -> (r: bool)
    ensures
        r == when_holds(*when, object_model(*ctx), numeric),
{
    let v = match when_field(when, ctx) {
        Some(v) => v,
        None => return false,
    };
    match &when.literal {
        Literal::Str(rhs) => match text_equals(v, rhs) {
            None => false,
            Some(eq) => match when.op {
                Op::Eq => eq,
                Op::Ne => !eq,
                _ => false,
            },
        },
        Literal::Num(_) => match numeric {
            None => false,
            Some(order) => cmp_num(order, when.op),
        },
    }
}

/// `event_type` is one of `on`, or `on` is empty.
pub open spec fn applies_to(on: Seq<String>, event_type: Seq<char>) -> bool {
    on.len() == 0 || exists|j: int| 0 <= j < on.len() && (#[trigger] on[j])@ == event_type
}

/// Whether `rule` applies to an event of type `event_type` with payload
/// `ctx`: it is enabled, names the type (or no type), and its `when`, if
/// any, holds.
pub open spec fn rule_matches(rule: CompiledRule, event_type: Seq<char>, ctx: Option<Seq<(String, JsonValue)>>, numeric: Option<Option<NumOrder>>) -> bool {
    !rule.disabled && applies_to(rule.on@, event_type) && match rule.when {
        None => true,
        Some(w) => when_holds(w, ctx, numeric),
    }
}

/// Whether `rule` applies to the event of type `event_type` with payload
/// `ctx` (`numeric` as for [`eval_when`]).
pub fn matches(rule: &CompiledRule, event_type: &str, ctx: &JsonObject, numeric: Option<Option<NumOrder>>) -> (r: bool)
    ensures
        r == rule_matches(*rule, event_type@, object_model(*ctx), numeric),
{
    if rule.disabled {
        return false;
    }
    if rule.on.len() > 0 {
        let name = String::from_str(event_type);
        let mut found = false;
        let mut i: usize = 0;
        while i < rule.on.len()
            invariant
                i <= rule.on.len(),
                name@ == event_type@,
                found == exists|j: int| 0 <= j < i && (#[trigger] rule.on@[j])@ == event_type@,
            decreases rule.on.len() - i,
        {
            if rule.on[i] == name {
                found = true;
            }
            i = i + 1;
        }
        if !found {
            return false;
        }
    }
    match &rule.when {
        None => true,
        Some(w) => eval_when(w, ctx, numeric),
    }
}


/// A disabled rule never matches, whatever the event.
pub proof fn law_disabled_rule_never_matches(
    rule: CompiledRule,
    event_type: Seq<char>,
    ctx: Option<Seq<(String, JsonValue)>>,
    numeric: Option<Option<NumOrder>>,
)
    requires
        rule.disabled,
    ensures
        !rule_matches(rule, event_type, ctx, numeric),
{
}

/// A rule with an empty `on` list and no `when` matches every event while
/// enabled.
pub proof fn law_wildcard_rule_matches_all(
    rule: CompiledRule,
    event_type: Seq<char>,
    ctx: Option<Seq<(String, JsonValue)>>,
    numeric: Option<Option<NumOrder>>,
)
    requires
        !rule.disabled,
        rule.on@.len() == 0,
        rule.when is None,
    ensures
        rule_matches(rule, event_type, ctx, numeric),
{
}
/// How a field value `a` stands against a literal `b`.
pub open spec fn order_of(a: int, b: int) -> NumOrder {
    if a < b {
        NumOrder::Less
    } else if a == b {
        NumOrder::Equal
    } else {
        NumOrder::Greater
    }
}

/// The order seen from the other side.
pub open spec fn flipped(o: Option<NumOrder>) -> Option<NumOrder> {
    match o {
        Some(NumOrder::Less) => Some(NumOrder::Greater),
        Some(NumOrder::Greater) => Some(NumOrder::Less),
        other => other,
    }
}

/// The numeric operators mean what they say: for a field value `a` and a
/// literal `b`, each operator holds exactly when the arithmetic relation
/// does (`<` when `a` is strictly below `b`, `>` strictly above, and so
/// on).
pub proof fn law_numeric_ops_are_arithmetic(a: int, b: int)
    ensures
        op_holds(Op::Lt, Some(order_of(a, b))) == (a < b),
        op_holds(Op::Le, Some(order_of(a, b))) == (a <= b),
        op_holds(Op::Gt, Some(order_of(a, b))) == (a > b),
        op_holds(Op::Ge, Some(order_of(a, b))) == (a >= b),
        op_holds(Op::Eq, Some(order_of(a, b))) == (a == b),
        op_holds(Op::Ne, Some(order_of(a, b))) == (a != b),
{
}

/// `<` holds exactly for a field strictly below the literal and `>`
/// exactly for one strictly above; they are mirror images, as are `<=`
/// and `>=`; `<=` is `<` or `==`, `>=` is `>` or `==`, `!=` is not `==`;
/// of `<`, `==` and `>` exactly one holds for ordered values, and for
/// unordered ones (a NaN) only `!=` holds.
pub proof fn law_numeric_ops_relate(o: Option<NumOrder>)
    ensures
        op_holds(Op::Lt, o) <==> o == Some(NumOrder::Less),
        op_holds(Op::Gt, o) <==> o == Some(NumOrder::Greater),
        op_holds(Op::Eq, o) <==> o == Some(NumOrder::Equal),
        op_holds(Op::Lt, o) == op_holds(Op::Gt, flipped(o)),
        op_holds(Op::Le, o) == op_holds(Op::Ge, flipped(o)),
        op_holds(Op::Le, o) == (op_holds(Op::Lt, o) || op_holds(Op::Eq, o)),
        op_holds(Op::Ge, o) == (op_holds(Op::Gt, o) || op_holds(Op::Eq, o)),
        op_holds(Op::Ne, o) == !op_holds(Op::Eq, o),
        o is Some ==> (op_holds(Op::Lt, o) as int) + (op_holds(Op::Eq, o) as int) + (op_holds(Op::Gt, o) as int) == 1,
        o is None ==> !op_holds(Op::Lt, o) && !op_holds(Op::Le, o) && !op_holds(Op::Gt, o) && !op_holds(Op::Ge, o)
            && !op_holds(Op::Eq, o) && op_holds(Op::Ne, o),
{
}
/// A string literal matches a string field by `==` exactly when the two
/// texts are equal and by `!=` exactly when they differ; no other
/// operator matches a string literal.
pub proof fn law_string_ops(x: String, rhs: Seq<char>, op: Op)
    ensures
        str_holds(Op::Eq, rhs, JsonValue::Str(x)) == (x@ == rhs),
        str_holds(Op::Ne, rhs, JsonValue::Str(x)) == (x@ != rhs),
        op != Op::Eq && op != Op::Ne ==> !str_holds(op, rhs, JsonValue::Str(x)),
{
}
/// A rule that names event types matches only those types; a rule with a
/// `when` matches only where the `when` holds; and a `when` whose field
/// the payload lacks (or a payload that is not an object) never holds,
/// whatever its operator.
pub proof fn law_rule_filters(
    rule: CompiledRule,
    event_type: Seq<char>,
    ctx: Option<Seq<(String, JsonValue)>>,
    numeric: Option<Option<NumOrder>>,
    w: CompiledWhen,
)
    ensures
        rule.on@.len() > 0 && (forall|j: int| 0 <= j < rule.on@.len() ==> (#[trigger] rule.on@[j])@ != event_type) ==> !rule_matches(
            rule,
            event_type,
            ctx,
            numeric,
        ),
        rule_matches(rule, event_type, ctx, numeric) && rule.when == Some(w) ==> when_holds(w, ctx, numeric),
        (match ctx {
            None => true,
            Some(f) => crate::event_key::field_value(f, w.field@) is None,
        }) ==> !when_holds(w, ctx, numeric),
        !rule.disabled && rule.when is None && (exists|j: int| 0 <= j < rule.on@.len() && (#[trigger] rule.on@[j])@ == event_type)
            ==> rule_matches(rule, event_type, ctx, numeric),
{
}
/// The text of an operator in a `when` expression.
pub open spec fn op_token(op: Op) -> Seq<char> {
    match op {
        Op::Eq => seq!['=', '='],
        Op::Ne => seq!['!', '='],
        Op::Ge => seq!['>', '='],
        Op::Le => seq!['<', '='],
        Op::Gt => seq!['>'],
        Op::Lt => seq!['<'],
    }
}

proof fn lemma_ident_len_concat(f: Seq<char>, r: Seq<char>)
    requires
        forall|k: int| 0 <= k < f.len() ==> is_ident_char(#[trigger] f[k]),
        r.len() > 0 && !is_ident_char(r[0]),
    ensures
        ident_len(f + r) == f.len(),
    decreases f.len(),
{
    if f.len() > 0 {
        assert((f + r)[0] == f[0]);
        assert((f + r).drop_first() =~= f.drop_first() + r);
        assert forall|k: int| 0 <= k < f.drop_first().len() implies is_ident_char(#[trigger] f.drop_first()[k]) by {
            assert(f.drop_first()[k] == f[k + 1]);
        }
        lemma_ident_len_concat(f.drop_first(), r);
    } else {
        assert(f + r =~= r);
    }
}

proof fn lemma_quote_index_after(v: Seq<char>, j: int)
    requires
        0 <= j <= v.len(),
        forall|k: int| 0 <= k < v.len() ==> v[k] != '"',
    ensures
        quote_index(v + seq!['"'], j) == Some(v.len() as int),
    decreases v.len() - j,
{
    let q = v + seq!['"'];
    if j < v.len() {
        assert(q[j] == v[j]);
        lemma_quote_index_after(v, j + 1);
    } else {
        assert(q[j] == '"');
    }
}

/// A `when` expression written as a field name (a letter or `_`, then
/// letters, digits and `_`), an operator and a double-quoted string
/// parses back to exactly that field, that operator and that string.
pub proof fn law_parse_when_round_trip(f: Seq<char>, op: Op, v: Seq<char>)
    requires
        f.len() > 0,
        forall|k: int| 0 <= k < f.len() ==> is_ident_char(#[trigger] f[k]),
        !is_digit(f[0]),
        forall|k: int| 0 <= k < v.len() ==> v[k] != '"',
    ensures
        when_result(f + op_token(op) + seq!['"'] + v + seq!['"']) == Ok::<(Seq<char>, Op, LiteralModel), Seq<char>>(
            (f, op, LiteralModel::Str(v)),
        ),
{
    let tok = op_token(op);
    let lit = seq!['"'] + v + seq!['"'];
    let r = tok + lit;
    let src = f + r;
    assert(f + op_token(op) + seq!['"'] + v + seq!['"'] =~= src);
    // The whole text has no surrounding whitespace.
    assert(src[0] == f[0]);
    assert(src.last() == '"');
    assert(crate::text::trim_start(src) == src);
    assert(crate::text::trim_end(src) == src);
    // The field.
    assert(r[0] == tok[0]);
    lemma_ident_len_concat(f, r);
    let n = f.len() as int;
    assert(src.subrange(0, n) =~= f);
    assert(src.subrange(n, src.len() as int) =~= r);
    assert(crate::text::trim_start(r) == r);
    // The operator.
    if tok.len() == 1 {
        assert(r[1] == '"');
    } else {
        assert(r[1] == tok[1]);
    }
    assert(op_prefix(r) == Some((op, tok.len())));
    assert(r.subrange(tok.len() as int, r.len() as int) =~= lit);
    // The literal.
    assert(lit[0] == '"' && lit.last() == '"');
    assert(crate::text::trim_start(lit) == lit);
    assert(crate::text::trim_end(lit) == lit);
    let q = lit.drop_first();
    assert(q =~= v + seq!['"']);
    lemma_quote_index_after(v, 0);
    assert(q.subrange(v.len() as int + 1, q.len() as int) =~= Seq::<char>::empty());
    assert(crate::text::trim(Seq::<char>::empty()) == Seq::<char>::empty());
    assert(q.subrange(0, v.len() as int) =~= v);
}
} // verus!
