//! `{field}` substitution in notification titles and bodies.
//!
//! Each `{name}` whose name is a field of the event payload is replaced by
//! that field's text (a string bare, anything else as compact JSON); a
//! placeholder naming no field, and a `{` with no closing `}`, are kept as
//! written.
use vstd::prelude::*;
use crate::event_key::{field_value, find_field, json_text, to_json_text, JsonObject, JsonValue};
use crate::rules::object_model;
use crate::text::{chars_of, extend_chars, string_of, substring};

verus! {

/// First index at or after `i` where `t` holds `c`, or `t.len()` when
/// there is none.
pub open spec fn index_from(t: Seq<char>, i: int, c: char) -> int
    decreases t.len() - i,
{
    if i >= t.len() {
        t.len() as int
    } else if t[i] == c {
        i
    } else {
        index_from(t, i + 1, c)
    }
}

/// The search stays within `i ..= t.len()`.
pub proof fn lemma_index_from_bounds(t: Seq<char>, i: int, c: char)
    requires
        0 <= i <= t.len(),
    ensures
        i <= index_from(t, i, c) <= t.len(),
        index_from(t, i, c) < t.len() ==> t[index_from(t, i, c)] == c,
    decreases t.len() - i,
{
    if i < t.len() && t[i] != c {
        lemma_index_from_bounds(t, i + 1, c);
    }
}

/// What stands in the output for the placeholder `{name}`.
pub open spec fn substitution(name: Seq<char>, ctx: Option<Seq<(String, JsonValue)>>) -> Seq<char> {
    let found = match ctx {
        Some(fields) => field_value(fields, name),
        None => None,
    };
    match found {
        Some(JsonValue::Str(s)) => s@,
        Some(v) => json_text(v),
        None => seq!['{'] + name + seq!['}'],
    }
}

/// The rendering of `t` from index `i` on.
pub open spec fn render_from(t: Seq<char>, i: int, ctx: Option<Seq<(String, JsonValue)>>) -> Seq<char>
    decreases t.len() - i,
{
    if i < 0 || i >= t.len() {
        Seq::empty()
    } else {
        let open = index_from(t, i, '{');
        let close = index_from(t, open + 1, '}');
        if open >= t.len() || close >= t.len() {
            t.subrange(i, t.len() as int)
        } else {
            proof {
                lemma_index_from_bounds(t, i, '{');
                lemma_index_from_bounds(t, open + 1, '}');
            }
            t.subrange(i, open) + substitution(t.subrange(open + 1, close), ctx) + render_from(
                t,
                close + 1,
                ctx,
            )
        }
    }
}

/// The rendering of a whole template.
pub open spec fn rendered(t: Seq<char>, ctx: Option<Seq<(String, JsonValue)>>) -> Seq<char> {
    render_from(t, 0, ctx)
}

proof fn lemma_index_from_shift(a: Seq<char>, b: Seq<char>, j: int, c: char)
    requires
        0 <= j <= b.len(),
    ensures
        index_from(a + b, a.len() + j, c) == a.len() + index_from(b, j, c),
    decreases b.len() - j,
{
    if j < b.len() {
        assert((a + b)[a.len() + j] == b[j]);
        if b[j] != c {
            lemma_index_from_shift(a, b, j + 1, c);
        }
    }
}

proof fn lemma_index_from_concat(a: Seq<char>, b: Seq<char>, i: int, c: char)
    requires
        0 <= i <= a.len(),
    ensures
        index_from(a, i, c) < a.len() ==> index_from(a + b, i, c) == index_from(a, i, c),
        index_from(a, i, c) >= a.len() ==> index_from(a + b, i, c) == a.len() + index_from(b, 0, c),
    decreases a.len() - i,
{
    if i < a.len() {
        assert((a + b)[i] == a[i]);
        if a[i] != c {
            lemma_index_from_concat(a, b, i + 1, c);
        }
    } else {
        lemma_index_from_shift(a, b, 0, c);
    }
}

proof fn lemma_render_shift(a: Seq<char>, b: Seq<char>, j: int, ctx: Option<Seq<(String, JsonValue)>>)
    requires
        0 <= j <= b.len(),
    ensures
        render_from(a + b, a.len() + j, ctx) == render_from(b, j, ctx),
    decreases b.len() - j,
{
    let s = a + b;
    let n = a.len() as int;
    if j < b.len() {
        lemma_index_from_shift(a, b, j, '{');
        lemma_index_from_bounds(b, j, '{');
        let ob = index_from(b, j, '{');
        if ob < b.len() {
            lemma_index_from_shift(a, b, ob + 1, '}');
            lemma_index_from_bounds(b, ob + 1, '}');
            let cb = index_from(b, ob + 1, '}');
            if cb < b.len() {
                assert(s.subrange(n + j, n + ob) =~= b.subrange(j, ob));
                assert(s.subrange(n + ob + 1, n + cb) =~= b.subrange(ob + 1, cb));
                lemma_render_shift(a, b, cb + 1, ctx);
            } else {
                assert(s.subrange(n + j, s.len() as int) =~= b.subrange(j, b.len() as int));
            }
        } else {
            assert(index_from(s, n + ob + 1, '}') == s.len()) by {
                lemma_index_from_shift(a, b, b.len() as int, '}');
            }
            assert(s.subrange(n + j, s.len() as int) =~= b.subrange(j, b.len() as int));
        }
    }
}

/// Every `{` of `a` is closed by a `}` later in `a`.
pub open spec fn braces_closed(a: Seq<char>) -> bool {
    forall|j: int| 0 <= j < a.len() && a[j] == '{' ==> #[trigger] index_from(a, j + 1, '}') < a.len()
}

proof fn lemma_render_concat_from(a: Seq<char>, b: Seq<char>, i: int, ctx: Option<Seq<(String, JsonValue)>>)
    requires
        0 <= i <= a.len(),
        braces_closed(a),
    ensures
        render_from(a + b, i, ctx) == render_from(a, i, ctx) + rendered(b, ctx),
    decreases a.len() - i,
{
    let s = a + b;
    let n = a.len() as int;
    if i == n {
        lemma_render_shift(a, b, 0, ctx);
        assert(render_from(a, i, ctx) =~= Seq::<char>::empty());
    } else {
        lemma_index_from_concat(a, b, i, '{');
        lemma_index_from_bounds(a, i, '{');
        let oa = index_from(a, i, '{');
        if oa < n {
            assert(a[oa] == '{');
            assert(index_from(a, oa + 1, '}') < n);
            lemma_index_from_concat(a, b, oa + 1, '}');
            lemma_index_from_bounds(a, oa + 1, '}');
            let ca = index_from(a, oa + 1, '}');
            assert(s.subrange(i, oa) =~= a.subrange(i, oa));
            assert(s.subrange(oa + 1, ca) =~= a.subrange(oa + 1, ca));
            lemma_render_concat_from(a, b, ca + 1, ctx);
        } else {
            // No placeholder left in `a`: its rest is copied, and `b` follows.
            lemma_index_from_bounds(b, 0, '{');
            let ob = index_from(b, 0, '{');
            assert(render_from(a, i, ctx) == a.subrange(i, n));
            if ob < b.len() {
                lemma_index_from_shift(a, b, ob + 1, '}');
                lemma_index_from_bounds(b, ob + 1, '}');
                let cb = index_from(b, ob + 1, '}');
                if cb < b.len() {
                    assert(s.subrange(i, n + ob) =~= a.subrange(i, n) + b.subrange(0, ob));
                    assert(s.subrange(n + ob + 1, n + cb) =~= b.subrange(ob + 1, cb));
                    lemma_render_shift(a, b, cb + 1, ctx);
                    assert(render_from(s, i, ctx) =~= a.subrange(i, n) + (b.subrange(0, ob) + substitution(b.subrange(ob + 1, cb), ctx)
                        + render_from(b, cb + 1, ctx)));
                } else {
                    assert(s.subrange(i, s.len() as int) =~= a.subrange(i, n) + b.subrange(0, b.len() as int));
                }
            } else {
                if b.len() > 0 {
                    lemma_index_from_shift(a, b, b.len() as int, '}');
                    assert(s.subrange(i, s.len() as int) =~= a.subrange(i, n) + b.subrange(0, b.len() as int));
                } else {
                    assert(s =~= a);
                    assert(rendered(b, ctx) =~= Seq::<char>::empty());
                    assert(render_from(a, i, ctx) + rendered(b, ctx) =~= render_from(a, i, ctx));
                }
            }
        }
    }
}

/// Rendering is compositional: when every `{` of `a` is closed within
/// `a`, rendering `a + b` renders `a` and then `b`, so each placeholder
/// is substituted wherever it stands.
pub proof fn law_render_concat(a: Seq<char>, b: Seq<char>, ctx: Option<Seq<(String, JsonValue)>>)
    requires
        braces_closed(a),
    ensures
        rendered(a + b, ctx) == rendered(a, ctx) + rendered(b, ctx),
{
    lemma_render_concat_from(a, b, 0, ctx);
}

/// A lone placeholder `{name}` renders as the field's text (a string
/// bare, anything else as compact JSON), or stays verbatim when the
/// payload has no such field; text without `{` is copied unchanged.
pub proof fn law_render_placeholder(name: Seq<char>, text: Seq<char>, ctx: Option<Seq<(String, JsonValue)>>)
    requires
        forall|k: int| 0 <= k < name.len() ==> name[k] != '}',
    ensures
        rendered(seq!['{'] + name + seq!['}'], ctx) == (match (match ctx {
            Some(f) => field_value(f, name),
            None => None,
        }) {
            Some(JsonValue::Str(s)) => s@,
            Some(v) => json_text(v),
            None => seq!['{'] + name + seq!['}'],
        }),
        (forall|k: int| 0 <= k < text.len() ==> text[k] != '{') ==> rendered(text, ctx) == text,
{
    let p = seq!['{'] + name + seq!['}'];
    let e = p.len() - 1;
    assert(p[0] == '{');
    assert(index_from(p, 0, '{') == 0);
    assert forall|k: int| 1 <= k < e implies p[k] != '}' by {
        assert(p[k] == name[k - 1]);
    }
    lemma_close_at(p, 1, e);
    assert(p.subrange(0, 0) =~= Seq::<char>::empty());
    assert(p.subrange(1, e) =~= name);
    assert(render_from(p, e + 1, ctx) =~= Seq::<char>::empty());
    assert(rendered(p, ctx) =~= substitution(name, ctx));
    if forall|k: int| 0 <= k < text.len() ==> text[k] != '{' {
        if text.len() > 0 {
            lemma_no_open(text, 0);
            assert(text.subrange(0, text.len() as int) =~= text);
        }
    }
}

proof fn lemma_close_at(s: Seq<char>, from: int, e: int)
    requires
        0 <= from <= e < s.len(),
        s[e] == '}',
        forall|k: int| from <= k < e ==> s[k] != '}',
    ensures
        index_from(s, from, '}') == e,
    decreases e - from,
{
    if from < e {
        lemma_close_at(s, from + 1, e);
    }
}

proof fn lemma_no_open(s: Seq<char>, i: int)
    requires
        0 <= i <= s.len(),
        forall|k: int| 0 <= k < s.len() ==> s[k] != '{',
    ensures
        index_from(s, i, '{') == s.len(),
    decreases s.len() - i,
{
    if i < s.len() {
        lemma_no_open(s, i + 1);
    }
}

fn index_of(t: &Vec<char>, from: usize, c: char) -> (r: usize)
    requires
        from <= t.len(),
    ensures
        r == index_from(t@, from as int, c),
        from <= r <= t.len(),
{
    proof {
        lemma_index_from_bounds(t@, from as int, c);
    }
    let mut i = from;
    while i < t.len()
        invariant
            from <= i <= t.len(),
            index_from(t@, i as int, c) == index_from(t@, from as int, c),
        decreases t.len() - i,
    {
        if t[i] == c {
            return i;
        }
        i = i + 1;
    }
    i
}

/// Appends to `out` what stands for the placeholder `{name}`.
fn push_substitution(out: &mut Vec<char>, name: &String, ctx: &JsonObject)
    ensures
        final(out)@ == old(out)@ + substitution(name@, object_model(*ctx)),
{
    let found = match ctx {
        Some(fields) => find_field(fields, name.as_str()),
        None => None,
    };
    let text: Vec<char> = match found {
        Some(JsonValue::Str(s)) => chars_of(s.as_str()),
        Some(v) => {
            let j = to_json_text(v);
            chars_of(j.as_str())
        },
        None => {
            let mut w: Vec<char> = vec!['{'];
            let nc = chars_of(name.as_str());
            extend_chars(&mut w, nc.as_slice(), 0, nc.len());
            w.push('}');
            assert(nc@.subrange(0, nc.len() as int) =~= nc@);
            assert(w@ =~= seq!['{'] + name@ + seq!['}']);
            w
        },
    };
    extend_chars(out, text.as_slice(), 0, text.len());
    assert(text@.subrange(0, text.len() as int) =~= text@);
}

/// Replaces each `{name}` of `template` as [`substitution`] says.
pub fn render(template: &str, ctx: &JsonObject) -> (r: String)
    ensures
        r@ == rendered(template@, object_model(*ctx)),
{
    let ghost cv = object_model(*ctx);
    let t = chars_of(template);
    let mut out: Vec<char> = Vec::new();
    let mut i: usize = 0;
    while i < t.len()
        invariant
            i <= t.len(),
            t@ == template@,
            cv == object_model(*ctx),
            out@ + render_from(t@, i as int, cv) == render_from(t@, 0, cv),
        decreases t.len() - i,
    {
        let open = index_of(&t, i, '{');
        let close = if open < t.len() {
            index_of(&t, open + 1, '}')
        } else {
            t.len()
        };
        if open >= t.len() || close >= t.len() {
            extend_chars(&mut out, t.as_slice(), i, t.len());
            assert(out@ + render_from(t@, t.len() as int, cv) =~= render_from(t@, 0, cv));
            i = t.len();
        } else {
            let ghost before = out@;
            extend_chars(&mut out, t.as_slice(), i, open);
            let name = substring(t.as_slice(), open + 1, close);
            push_substitution(&mut out, &name, ctx);
            assert(out@ =~= before + t@.subrange(i as int, open as int) + substitution(
                t@.subrange(open + 1, close as int),
                cv,
            ));
            assert(render_from(t@, i as int, cv) == t@.subrange(i as int, open as int)
                + substitution(t@.subrange(open + 1, close as int), cv) + render_from(
                t@,
                close + 1,
                cv,
            ));
            i = close + 1;
        }
    }
    string_of(out.as_slice())
}

/// A character as it stands inside an AppleScript string literal:
/// backslash and double quote get a backslash before them.
pub open spec fn escaped_char(c: char) -> Seq<char> {
    if c == '\\' || c == '"' {
        seq!['\\', c]
    } else {
        seq![c]
    }
}

/// `s` with each character escaped by [`escaped_char`].
pub open spec fn escaped(s: Seq<char>) -> Seq<char>
    decreases s.len(),
{
    if s.len() == 0 {
        Seq::empty()
    } else {
        escaped(s.drop_last()) + escaped_char(s.last())
    }
}

/// Escapes `s` for use inside a double-quoted AppleScript string.
pub fn escape_for_osascript(s: &str) -> (r: String)
    ensures
        r@ == escaped(s@),
{
    let v = chars_of(s);
    let mut out: Vec<char> = Vec::new();
    let mut i: usize = 0;
    while i < v.len()
        invariant
            i <= v.len(),
            v@ == s@,
            out@ == escaped(v@.subrange(0, i as int)),
        decreases v.len() - i,
    {
        let c = v[i];
        if c == '\\' || c == '"' {
            out.push('\\');
        }
        out.push(c);
        assert(v@.subrange(0, i + 1).drop_last() =~= v@.subrange(0, i as int));
        assert(out@ =~= escaped(v@.subrange(0, i + 1)));
        i = i + 1;
    }
    assert(v@.subrange(0, v.len() as int) =~= v@);
    string_of(out.as_slice())
}

/// The AppleScript that shows `body` under `title` as a notification.
pub open spec fn osascript_text(title: Seq<char>, body: Seq<char>) -> Seq<char> {
    "display notification \""@ + escaped(body) + "\" with title \""@ + escaped(title) + "\""@
}

/// Builds the script handed to `osascript -e` for one notification.
pub fn osascript_script(title: &str, body: &str) -> (r: String)
    ensures
        r@ == osascript_text(title@, body@),
{
    let t = escape_for_osascript(title);
    let b = escape_for_osascript(body);
    let mut out: Vec<char> = chars_of("display notification \"");
    let bc = chars_of(b.as_str());
    extend_chars(&mut out, bc.as_slice(), 0, bc.len());
    let mid = chars_of("\" with title \"");
    extend_chars(&mut out, mid.as_slice(), 0, mid.len());
    let tc = chars_of(t.as_str());
    extend_chars(&mut out, tc.as_slice(), 0, tc.len());
    out.push('"');
    proof {
        reveal_strlit("\"");
        assert(bc@.subrange(0, bc.len() as int) =~= bc@);
        assert(mid@.subrange(0, mid.len() as int) =~= mid@);
        assert(tc@.subrange(0, tc.len() as int) =~= tc@);
    }
    assert(out@ =~= osascript_text(title@, body@));
    string_of(out.as_slice())
}

} // verus!
