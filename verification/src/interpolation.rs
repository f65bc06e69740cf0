//! Variable interpolation for path-valued settings: `${UID}`, any
//! `${VAR}` found in the supplied environment, and a leading `~`
//! (home-relative path).
//!
//! Unknown variables are left verbatim, so a configuration that names a
//! placeholder this version does not understand shows the literal text
//! instead of collapsing to a surprising path.
use vstd::prelude::*;
use crate::text::{chars_of, extend_chars, string_of, substring};

verus! {

/// `base` joined with `rest` the way `PathBuf::join` does on Unix: an
/// absolute `rest` replaces `base`; otherwise a separator is inserted
/// unless `base` is empty or already ends with one.
pub open spec fn path_join(base: Seq<char>, rest: Seq<char>) -> Seq<char> {
    if rest.len() > 0 && rest[0] == '/' {
        rest
    } else if base.len() == 0 || base.last() == '/' {
        base + rest
    } else {
        base + seq!['/'] + rest
    }
}

/// Leading `~/` or a bare `~` replaced by the home directory, when known.
pub open spec fn expand_tilde_spec(input: Seq<char>, home: Option<Seq<char>>) -> Seq<char> {
    if input.len() >= 2 && input[0] == '~' && input[1] == '/' && home is Some {
        path_join(home->0, input.subrange(2, input.len() as int))
    } else if input == seq!['~'] && home is Some {
        home->0
    } else {
        input
    }
}

/// First index at or after `from` holding `}`.
pub open spec fn find_close(s: Seq<char>, from: int) -> Option<int>
    decreases s.len() - from,
{
    if from < 0 || from >= s.len() {
        None
    } else if s[from] == '}' {
        Some(from)
    } else {
        find_close(s, from + 1)
    }
}

/// Value of the variable `name`: `UID` comes from `uid`, every other
/// name from `env`.
pub open spec fn variable_value(name: Seq<char>, env: Map<Seq<char>, Seq<char>>, uid: Option<Seq<char>>) -> Option<Seq<char>> {
    if name == seq!['U', 'I', 'D'] {
        uid
    } else {
        env.get(name)
    }
}

/// Expansion of `s[i..]`: each `${NAME}` with a closing brace is replaced
/// by the variable's value, or kept verbatim when the variable has none;
/// every other character is copied.
pub open spec fn expand_from(s: Seq<char>, i: int, env: Map<Seq<char>, Seq<char>>, uid: Option<Seq<char>>) -> Seq<char>
    decreases s.len() - i,
{
    if i < 0 || i >= s.len() {
        seq![]
    } else if s[i] == '$' && i + 1 < s.len() && s[i + 1] == '{' && find_close(s, i + 2) is Some {
        proof {
            lemma_find_close_bounds(s, i + 2);
        }
        let end = find_close(s, i + 2)->0;
        let name = s.subrange(i + 2, end);
        match variable_value(name, env, uid) {
            Some(v) => v + expand_from(s, end + 1, env, uid),
            None => s.subrange(i, end + 1) + expand_from(s, end + 1, env, uid),
        }
    } else {
        seq![s[i]] + expand_from(s, i + 1, env, uid)
    }
}

/// The map a list of `(name, value)` pairs stands for (a later pair wins).
pub open spec fn env_map(env: Seq<(String, String)>) -> Map<Seq<char>, Seq<char>> {
    crate::keyed::as_map(env).map_values(|v: String| v@)
}

/// The full expansion: tilde first, then placeholders.
pub open spec fn expand_spec(input: Seq<char>, env: Map<Seq<char>, Seq<char>>, uid: Option<Seq<char>>, home: Option<Seq<char>>) -> Seq<char> {
    expand_from(expand_tilde_spec(input, home), 0, env, uid)
}

pub open spec fn opt_view(o: Option<String>) -> Option<Seq<char>> {
    match o {
        Some(s) => Some(s@),
        None => None,
    }
}

pub proof fn lemma_find_close_bounds(s: Seq<char>, from: int)
    ensures
        match find_close(s, from) {
            Some(e) => from <= e < s.len() && s[e] == '}' && forall|k: int| from <= k < e ==> s[k] != '}',
            None => forall|k: int| from <= k < s.len() && from >= 0 ==> s[k] != '}',
        },
    decreases s.len() - from,
{
    if from >= 0 && from < s.len() && s[from] != '}' {
        lemma_find_close_bounds(s, from + 1);
    }
}

/// Exec [`path_join`].
pub fn join_path(base: &Vec<char>, rest: &[char]) -> (r: Vec<char>)
    ensures
        r@ == path_join(base@, rest@),
{
    let mut out: Vec<char> = Vec::new();
    if rest.len() > 0 && rest[0] == '/' {
        extend_chars(&mut out, rest, 0, rest.len());
        assert(out@ =~= rest@);
        return out;
    }
    extend_chars(&mut out, base.as_slice(), 0, base.len());
    if !(base.len() == 0 || base[base.len() - 1] == '/') {
        out.push('/');
    }
    extend_chars(&mut out, rest, 0, rest.len());
    proof {
        if !(base@.len() == 0 || base@.last() == '/') {
            assert(out@ =~= base@ + seq!['/'] + rest@);
        } else {
            assert(out@ =~= base@ + rest@);
        }
    }
    out
}

/// Looks `name` up in `env` (the last matching pair wins).
fn env_lookup(env: &Vec<(String, String)>, name: &String) -> (r: Option<String>)
    ensures
        opt_view(r) == env_map(env@).get(name@),
{
    match crate::keyed::find_last(env, name) {
        Some(i) => {
            proof {
                crate::keyed::lemma_as_map_get(env@, name@);
            }
            Some(env[i].1.clone())
        },
        None => {
            proof {
                crate::keyed::lemma_as_map_get(env@, name@);
            }
            None
        },
    }
}

fn expand_tilde(input: &Vec<char>, home: &Option<String>) -> (r: Vec<char>)
    ensures
        r@ == expand_tilde_spec(input@, opt_view(*home)),
{
    match home {
        Some(h) => {
            if input.len() >= 2 && input[0] == '~' && input[1] == '/' {
                let hv = chars_of(h.as_str());
                let mut rest: Vec<char> = Vec::new();
                extend_chars(&mut rest, input.as_slice(), 2, input.len());
                assert(rest@ =~= input@.subrange(2, input@.len() as int));
                return join_path(&hv, rest.as_slice());
            }
            if input.len() == 1 && input[0] == '~' {
                assert(input@ =~= seq!['~']);
                return chars_of(h.as_str());
            }
            proof {
                if input@ == seq!['~'] {
                    assert(input@.len() == 1);
                }
            }
            let mut out: Vec<char> = Vec::new();
            extend_chars(&mut out, input.as_slice(), 0, input.len());
            assert(out@ =~= input@);
            out
        },
        None => {
            let mut out: Vec<char> = Vec::new();
            extend_chars(&mut out, input.as_slice(), 0, input.len());
            assert(out@ =~= input@);
            out
        },
    }
}

/// Expands `${VAR}` placeholders and a leading `~/` in `input`. `env`
/// supplies environment variables as `(name, value)` pairs, `uid` the
/// value of `${UID}`, and `home` the home directory.
pub fn expand_with(
    input: &str,
    env: &Vec<(String, String)>,
    uid: Option<String>,
    home: Option<String>,
) -> (r: String)
    ensures
        r@ == expand_spec(input@, env_map(env@), opt_view(uid), opt_view(home)),
{
    let raw = chars_of(input);
    let s = expand_tilde(&raw, &home);
    let ghost envm = env_map(env@);
    let ghost uidv = opt_view(uid);
    let mut out: Vec<char> = Vec::new();
    let mut i: usize = 0;
    while i < s.len()
        invariant
            i <= s.len(),
            out@ + expand_from(s@, i as int, envm, uidv) == expand_from(s@, 0, envm, uidv),
            envm == env_map(env@),
            uidv == opt_view(uid),
        decreases s.len() - i,
    {
        if s[i] == '$' && i + 1 < s.len() && s[i + 1] == '{' {
            // Look for the closing brace.
            let mut e = i + 2;
            while e < s.len() && s[e] != '}'
                invariant
                    i + 2 <= e <= s.len(),
                    forall|k: int| i + 2 <= k < e ==> s@[k] != '}',
                decreases s.len() - e,
            {
                e = e + 1;
            }
            proof {
                lemma_find_close_bounds(s@, i + 2);
            }
            if e < s.len() {
                proof {
                    assert(find_close(s@, i + 2) == Some(e as int));
                }
                let name = substring(s.as_slice(), i + 2, e);
                let is_uid = e - i == 5 && s[i + 2] == 'U' && s[i + 3] == 'I' && s[i + 4] == 'D';
                proof {
                    if is_uid {
                        assert(name@ =~= seq!['U', 'I', 'D']);
                    } else if name@ == seq!['U', 'I', 'D'] {
                        assert(name@.len() == 3);
                        assert(e - i == 5);
                        assert(name@[0] == s@[i + 2]);
                        assert(name@[1] == s@[i + 3]);
                        assert(name@[2] == s@[i + 4]);
                    }
                }
                let replacement = if is_uid {
                    match &uid {
                        Some(u) => Some(u.clone()),
                        None => None,
                    }
                } else {
                    env_lookup(env, &name)
                };
                match replacement {
                    Some(v) => {
                        let vv = chars_of(v.as_str());
                        let ghost o0 = out@;
                        extend_chars(&mut out, vv.as_slice(), 0, vv.len());
                        assert(vv@.subrange(0, vv.len() as int) =~= vv@);
                        proof {
                            assert(out@ + expand_from(s@, e + 1, envm, uidv) =~= o0 + (vv@ + expand_from(s@, e + 1, envm, uidv)));
                        }
                    },
                    None => {
                        let ghost o0 = out@;
                        extend_chars(&mut out, s.as_slice(), i, e + 1);
                        proof {
                            assert(out@ + expand_from(s@, e + 1, envm, uidv) =~= o0 + (s@.subrange(i as int, e + 1) + expand_from(s@, e + 1, envm, uidv)));
                        }
                    },
                }
                i = e + 1;
                continue;
            }
        }
        proof {
            let ghost o0 = out@;
            assert(o0 + expand_from(s@, i as int, envm, uidv) =~= o0.push(s@[i as int]) + expand_from(s@, i + 1, envm, uidv));
        }
        out.push(s[i]);
        i = i + 1;
    }
    let r = string_of(out.as_slice());
    r
}


proof fn lemma_expand_plain(s: Seq<char>, i: int, env: Map<Seq<char>, Seq<char>>, uid: Option<Seq<char>>)
    requires
        0 <= i <= s.len(),
        forall|j: int| 0 <= j < s.len() - 1 ==> !(#[trigger] s[j] == '$' && s[j + 1] == '{'),
    ensures
        expand_from(s, i, env, uid) == s.subrange(i, s.len() as int),
    decreases s.len() - i,
{
    if i < s.len() {
        lemma_expand_plain(s, i + 1, env, uid);
        assert(s.subrange(i, s.len() as int) =~= seq![s[i]] + s.subrange(i + 1, s.len() as int));
    } else {
        assert(s.subrange(i, s.len() as int) =~= Seq::<char>::empty());
    }
}

/// A value with no `${`, that is neither `~` nor begins with `~/`, comes
/// back unchanged, whatever the environment.
pub proof fn law_plain_value_unchanged(input: Seq<char>, env: Map<Seq<char>, Seq<char>>, uid: Option<Seq<char>>, home: Option<Seq<char>>)
    requires
        forall|j: int| 0 <= j < input.len() - 1 ==> !(#[trigger] input[j] == '$' && input[j + 1] == '{'),
        input != seq!['~'],
        !(input.len() >= 2 && input[0] == '~' && input[1] == '/'),
    ensures
        expand_spec(input, env, uid, home) == input,
{
    assert(expand_tilde_spec(input, home) == input);
    lemma_expand_plain(input, 0, env, uid);
    assert(input.subrange(0, input.len() as int) =~= input);
}

/// A placeholder whose variable has no value is kept verbatim.
pub proof fn law_unknown_variable_kept(s: Seq<char>, i: int, env: Map<Seq<char>, Seq<char>>, uid: Option<Seq<char>>)
    requires
        0 <= i,
        i + 1 < s.len(),
        s[i] == '$',
        s[i + 1] == '{',
        find_close(s, i + 2) matches Some(e) && variable_value(s.subrange(i + 2, e), env, uid) is None,
    ensures
        expand_from(s, i, env, uid) == s.subrange(i, find_close(s, i + 2)->0 + 1) + expand_from(s, find_close(s, i + 2)->0 + 1, env, uid),
{
}
/// Every `${` of `a` has its closing `}` within `a`, and `a` does not end
/// in a `$` that a following `{` would turn into a placeholder.
pub open spec fn self_contained(a: Seq<char>, b: Seq<char>) -> bool {
    &&& forall|j: int| 0 <= j < a.len() - 1 && a[j] == '$' && a[j + 1] == '{' ==> (#[trigger] find_close(a, j + 2)) is Some
    &&& !(a.len() > 0 && a.last() == '$' && b.len() > 0 && b[0] == '{')
}

proof fn lemma_find_close_prefix(a: Seq<char>, b: Seq<char>, from: int)
    requires
        0 <= from,
        find_close(a, from) is Some,
    ensures
        find_close(a + b, from) == find_close(a, from),
    decreases a.len() - from,
{
    if from < a.len() && a[from] != '}' {
        lemma_find_close_prefix(a, b, from + 1);
    }
    if from < a.len() {
        assert((a + b)[from] == a[from]);
    }
}

proof fn lemma_expand_concat_from(a: Seq<char>, b: Seq<char>, i: int, env: Map<Seq<char>, Seq<char>>, uid: Option<Seq<char>>)
    requires
        0 <= i <= a.len(),
        self_contained(a, b),
    ensures
        expand_from(a + b, i, env, uid) == expand_from(a, i, env, uid) + expand_from(b, 0, env, uid),
    decreases a.len() - i,
{
    let s = a + b;
    if i == a.len() {
        lemma_expand_shift(a, b, 0, env, uid);
        assert(expand_from(a, i, env, uid) =~= Seq::<char>::empty());
    } else {
        assert(s[i] == a[i]);
        if i + 1 < a.len() {
            assert(s[i + 1] == a[i + 1]);
        }
        let opens = a[i] == '$' && i + 1 < a.len() && a[i + 1] == '{';
        if opens {
            assert(find_close(a, i + 2) is Some);
            lemma_find_close_prefix(a, b, i + 2);
            lemma_find_close_bounds(a, i + 2);
            let e = find_close(a, i + 2)->0;
            assert(s.subrange(i + 2, e) =~= a.subrange(i + 2, e));
            assert(s.subrange(i, e + 1) =~= a.subrange(i, e + 1));
            lemma_expand_concat_from(a, b, e + 1, env, uid);
        } else {
            if a[i] == '$' && i + 1 == a.len() {
                assert(!(b.len() > 0 && b[0] == '{'));
                if b.len() > 0 {
                    assert(s[i + 1] == b[0]);
                }
            }
            lemma_expand_concat_from(a, b, i + 1, env, uid);
            assert(seq![s[i]] + expand_from(s, i + 1, env, uid) =~= seq![a[i]] + expand_from(a, i + 1, env, uid) + expand_from(b, 0, env, uid));
        }
    }
}

proof fn lemma_expand_shift(a: Seq<char>, b: Seq<char>, j: int, env: Map<Seq<char>, Seq<char>>, uid: Option<Seq<char>>)
    requires
        0 <= j <= b.len(),
    ensures
        expand_from(a + b, a.len() + j, env, uid) == expand_from(b, j, env, uid),
    decreases b.len() - j,
{
    let s = a + b;
    let n = a.len() as int;
    if j < b.len() {
        assert(s[n + j] == b[j]);
        if j + 1 < b.len() {
            assert(s[n + j + 1] == b[j + 1]);
        }
        if b[j] == '$' && j + 1 < b.len() && b[j + 1] == '{' {
            lemma_find_close_shift(a, b, j + 2);
            lemma_find_close_bounds(b, j + 2);
            if find_close(b, j + 2) is Some {
                let e = find_close(b, j + 2)->0;
                assert(s.subrange(n + j + 2, n + e) =~= b.subrange(j + 2, e));
                assert(s.subrange(n + j, n + e + 1) =~= b.subrange(j, e + 1));
                lemma_expand_shift(a, b, e + 1, env, uid);
            } else {
                lemma_expand_shift(a, b, j + 1, env, uid);
            }
        } else {
            lemma_expand_shift(a, b, j + 1, env, uid);
        }
    }
}

proof fn lemma_find_close_shift(a: Seq<char>, b: Seq<char>, j: int)
    requires
        0 <= j,
    ensures
        find_close(a + b, a.len() + j) == match find_close(b, j) {
            Some(e) => Some(a.len() + e),
            None => None::<int>,
        },
    decreases b.len() - j,
{
    if j < b.len() {
        assert((a + b)[a.len() + j] == b[j]);
        if b[j] != '}' {
            lemma_find_close_shift(a, b, j + 1);
        }
    }
}

/// Expansion is compositional: when the first part `a` holds its own
/// placeholders (each `${` closes within `a`, and `a` does not end in a
/// `$` that `b` would complete), expanding `a + b` expands `a` and then
/// `b`: what follows a replaced placeholder is expanded too.
pub proof fn law_expand_concat(a: Seq<char>, b: Seq<char>, env: Map<Seq<char>, Seq<char>>, uid: Option<Seq<char>>)
    requires
        self_contained(a, b),
    ensures
        expand_from(a + b, 0, env, uid) == expand_from(a, 0, env, uid) + expand_from(b, 0, env, uid),
{
    lemma_expand_concat_from(a, b, 0, env, uid);
}

/// A placeholder `${NAME}` whose variable has a value expands to that
/// value, and one without a value stays verbatim.
pub proof fn law_placeholder_alone(name: Seq<char>, env: Map<Seq<char>, Seq<char>>, uid: Option<Seq<char>>)
    requires
        forall|k: int| 0 <= k < name.len() ==> name[k] != '}',
    ensures
        ({
            let p = seq!['$', '{'] + name + seq!['}'];
            expand_from(p, 0, env, uid) == match variable_value(name, env, uid) {
                Some(v) => v,
                None => p,
            }
        }),
{
    let p = seq!['$', '{'] + name + seq!['}'];
    let e = p.len() - 1;
    assert(p[0] == '$' && p[1] == '{' && p[e] == '}');
    assert forall|k: int| 2 <= k < e implies p[k] != '}' by {
        assert(p[k] == name[k - 2]);
    }
    lemma_find_close_first(p, 2, e);
    assert(p.subrange(2, e) =~= name);
    assert(p.subrange(0, e + 1) =~= p);
    assert(expand_from(p, e + 1, env, uid) =~= Seq::<char>::empty());
}

proof fn lemma_find_close_first(s: Seq<char>, from: int, e: int)
    requires
        0 <= from <= e < s.len(),
        s[e] == '}',
        forall|k: int| from <= k < e ==> s[k] != '}',
    ensures
        find_close(s, from) == Some(e),
    decreases e - from,
{
    if from < e {
        lemma_find_close_first(s, from + 1, e);
    }
}
} // verus!
