//! Resolution and validation of the events Unix socket path.
//!
//! Resolution order, highest precedence first:
//! 1. an explicit override (CLI flag), then `ABTOP_EVENTS_SOCKET`;
//! 2. `$XDG_RUNTIME_DIR/abtop.sock`, when set and non-empty;
//! 3. `$TMPDIR/abtop.sock`, when set and non-empty;
//! 4. `/tmp/abtop-$UID.sock`.
//!
//! BSD and macOS cap `sun_path` at 104 bytes; [`validate_sun_path_length`]
//! refuses a path that would not fit, naming the variable that escapes
//! the limit.
use vstd::prelude::*;
use crate::interpolation::{join_path, path_join};
use crate::text::{chars_of, push_decimal, string_of, trim_bounds};

verus! {

/// `sun_path` limit of macOS and the BSDs (Linux allows 108); the
/// stricter value keeps one path valid everywhere.
pub const SUN_PATH_MAX: usize = 104;

/// File name of the socket inside a runtime or temporary directory.
pub open spec fn socket_file_name() -> Seq<char> {
    "abtop.sock"@
}

/// Text of the too-long error for a path of `n` bytes.
pub open spec fn too_long_message(n: nat) -> Seq<char> {
    "socket path too long ("@ + crate::text::decimal(n) + " >= 104). Set ABTOP_EVENTS_SOCKET to a shorter path."@
}

fn push_str(out: &mut Vec<char>, s: &str)
    ensures
        final(out)@ == old(out)@ + s@,
{
    let c = chars_of(s);
    crate::text::extend_chars(out, c.as_slice(), 0, c.len());
    assert(c@.subrange(0, c@.len() as int) =~= c@);
}

/// `Err` when the UTF-8 encoding of `path` would not fit in a
/// `sockaddr_un.sun_path` (at least [`SUN_PATH_MAX`] bytes); the message
/// gives the length and names `ABTOP_EVENTS_SOCKET`.
pub fn validate_sun_path_length(path: &str) -> (r: Result<(), String>)
    ensures
        r is Ok <==> crate::text::utf8_len(path@) < SUN_PATH_MAX,
        r matches Err(m) ==> m@ == too_long_message(crate::text::utf8_len(path@)),
{
    let v = chars_of(path);
    let n = crate::text::utf8_len_of(&v, v.len());
    assert(v@.subrange(0, v.len() as int) =~= path@);
    if n >= SUN_PATH_MAX as u128 {
        let mut out: Vec<char> = Vec::new();
        push_str(&mut out, "socket path too long (");
        push_decimal(&mut out, n);
        push_str(&mut out, " >= 104). Set ABTOP_EVENTS_SOCKET to a shorter path.");
        assert(out@ =~= too_long_message(n as nat));
        return Err(string_of(out.as_slice()));
    }
    Ok(())
}

pub open spec fn is_ascii_digit(c: char) -> bool {
    '0' <= c <= '9'
}

/// Value of a run of decimal digits.
pub open spec fn digits_value(s: Seq<char>) -> nat
    decreases s.len(),
{
    if s.len() == 0 {
        0
    } else {
        digits_value(s.drop_last()) * 10 + (s.last() as nat - '0' as nat) as nat
    }
}

/// `s` without a leading `+`.
pub open spec fn unsigned_body(s: Seq<char>) -> Seq<char> {
    if s.len() > 0 && s[0] == '+' {
        s.drop_first()
    } else {
        s
    }
}

/// What `str::parse::<u32>` gives: an optional `+`, then at least one
/// ASCII digit and nothing else, with a value below 2^32.
pub open spec fn parse_u32_spec(s: Seq<char>) -> Option<u32> {
    let d = unsigned_body(s);
    if d.len() > 0 && (forall|i: int| 0 <= i < d.len() ==> is_ascii_digit(#[trigger] d[i])) && digits_value(d) <= u32::MAX {
        Some(digits_value(d) as u32)
    } else {
        None
    }
}

proof fn lemma_digits_value_push(s: Seq<char>, c: char)
    ensures
        digits_value(s.push(c)) == digits_value(s) * 10 + (c as nat - '0' as nat) as nat,
{
    assert(s.push(c).drop_last() =~= s);
}

proof fn lemma_digits_value_mono(s: Seq<char>, i: int)
    requires
        0 <= i <= s.len(),
        forall|j: int| 0 <= j < s.len() ==> is_ascii_digit(#[trigger] s[j]),
    ensures
        digits_value(s.subrange(0, i)) <= digits_value(s),
    decreases s.len() - i,
{
    if i < s.len() {
        lemma_digits_value_mono(s, i + 1);
        lemma_digits_value_push(s.subrange(0, i), s[i]);
        assert(s.subrange(0, i).push(s[i]) =~= s.subrange(0, i + 1));
    } else {
        assert(s.subrange(0, i) =~= s);
    }
}

/// Parses `v[from..to]` as `str::parse::<u32>` does.
fn parse_u32_in(v: &Vec<char>, from: usize, to: usize) -> (r: Option<u32>)
    requires
        from <= to <= v.len(),
    ensures
        r == parse_u32_spec(v@.subrange(from as int, to as int)),
{
    let ghost s = v@.subrange(from as int, to as int);
    let start = if from < to && v[from] == '+' {
        from + 1
    } else {
        from
    };
    let ghost d = v@.subrange(start as int, to as int);
    proof {
        if from < to && v@[from as int] == '+' {
            assert(s.drop_first() =~= d);
        } else {
            assert(s =~= d);
        }
    }
    if start == to {
        return None;
    }
    let mut value: u64 = 0;
    let mut i = start;
    while i < to
        invariant
            start <= i <= to <= v.len(),
            d == v@.subrange(start as int, to as int),
            d == unsigned_body(s),
            s == v@.subrange(from as int, to as int),
            forall|j: int| start <= j < i ==> is_ascii_digit(#[trigger] v@[j]),
            value == digits_value(v@.subrange(start as int, i as int)),
            value <= u32::MAX,
        decreases to - i,
    {
        let c = v[i];
        if !('0' <= c && c <= '9') {
            proof {
                assert(d[i - start] == c);
            }
            return None;
        }
        proof {
            lemma_digits_value_push(v@.subrange(start as int, i as int), c);
            assert(v@.subrange(start as int, i as int).push(c) =~= v@.subrange(start as int, i + 1));
        }
        value = value * 10 + ((c as u32) - ('0' as u32)) as u64;
        if value > 0xffff_ffff {
            proof {
                if forall|j: int| 0 <= j < d.len() ==> is_ascii_digit(#[trigger] d[j]) {
                    lemma_digits_value_mono(d, i + 1 - start);
                    assert(d.subrange(0, i + 1 - start) =~= v@.subrange(start as int, i + 1));
                }
            }
            return None;
        }
        i = i + 1;
    }
    proof {
        assert forall|j: int| 0 <= j < d.len() implies is_ascii_digit(#[trigger] d[j]) by {
            assert(d[j] == v@[start + j]);
        }
    }
    Some(value as u32)
}

/// `str::parse::<u32>`.
pub fn parse_u32(s: &str) -> (r: Option<u32>)
    ensures
        r == parse_u32_spec(s@),
{
    let v = chars_of(s);
    assert(v@.subrange(0, v.len() as int) =~= v@);
    parse_u32_in(&v, 0, v.len())
}

/// The user id: `$UID` when it parses, else the trimmed output of
/// `id -u` when it parses, else 0.
pub open spec fn uid_spec(env_uid: Option<Seq<char>>, id_output: Option<Seq<char>>) -> u32 {
    match env_uid {
        Some(u) if parse_u32_spec(u) is Some => parse_u32_spec(u)->0,
        _ => match id_output {
            Some(o) if parse_u32_spec(crate::text::trim(o)) is Some => parse_u32_spec(crate::text::trim(o))->0,
            _ => 0,
        },
    }
}

/// Best-effort user id from the `UID` variable and the output of
/// `id -u` (read by the caller). The value only names a per-user socket
/// file, so a wrong one just makes collisions likelier.
pub fn uid_from(env_uid: Option<String>, id_output: Option<String>) -> (r: u32)
    ensures
        r == uid_spec(crate::interpolation::opt_view(env_uid), crate::interpolation::opt_view(id_output)),
{
    if let Some(u) = &env_uid {
        if let Some(n) = parse_u32(u.as_str()) {
            return n;
        }
    }
    if let Some(o) = &id_output {
        let v = chars_of(o.as_str());
        let (a, b) = trim_bounds(&v);
        if let Some(n) = parse_u32_in(&v, a, b) {
            return n;
        }
    }
    0
}

/// The socket path, by the resolution order of this module.
pub open spec fn resolve_spec(
    override_path: Option<Seq<char>>,
    env_socket: Option<Seq<char>>,
    xdg_runtime_dir: Option<Seq<char>>,
    tmpdir: Option<Seq<char>>,
    uid: u32,
) -> Seq<char> {
    match override_path {
        Some(p) => p,
        None => match env_socket {
            Some(p) => p,
            None => match xdg_runtime_dir {
                Some(d) if d.len() > 0 => path_join(d, socket_file_name()),
                _ => match tmpdir {
                    Some(d) if d.len() > 0 => path_join(d, socket_file_name()),
                    _ => "/tmp/abtop-"@ + crate::text::decimal(uid as nat) + ".sock"@,
                },
            },
        },
    }
}

/// Resolves the socket path from an explicit override and the values of
/// `ABTOP_EVENTS_SOCKET`, `XDG_RUNTIME_DIR` and `TMPDIR` (each `None`
/// when unset), and the user id.
pub fn resolve_from(
    override_path: Option<&str>,
    env_socket: Option<String>,
    xdg_runtime_dir: Option<String>,
    tmpdir: Option<String>,
    uid: u32,
) -> (r: String)
    ensures
        r@ == resolve_spec(
            match override_path {
                Some(p) => Some(p@),
                None => None,
            },
            crate::interpolation::opt_view(env_socket),
            crate::interpolation::opt_view(xdg_runtime_dir),
            crate::interpolation::opt_view(tmpdir),
            uid,
        ),
{
    if let Some(p) = override_path {
        return String::from_str(p);
    }
    if let Some(p) = env_socket {
        return p;
    }
    let name = chars_of("abtop.sock");
    if let Some(d) = &xdg_runtime_dir {
        if !d.as_str().is_empty() {
            let dv = chars_of(d.as_str());
            return string_of(join_path(&dv, name.as_slice()).as_slice());
        }
    }
    if let Some(d) = &tmpdir {
        if !d.as_str().is_empty() {
            let dv = chars_of(d.as_str());
            return string_of(join_path(&dv, name.as_slice()).as_slice());
        }
    }
    let mut out: Vec<char> = Vec::new();
    push_str(&mut out, "/tmp/abtop-");
    push_decimal(&mut out, uid as u128);
    push_str(&mut out, ".sock");
    assert(out@ =~= "/tmp/abtop-"@ + crate::text::decimal(uid as nat) + ".sock"@);
    string_of(out.as_slice())
}

/// Resolution order: an explicit override wins over everything; then
/// `ABTOP_EVENTS_SOCKET`; then `abtop.sock` in a non-empty
/// `XDG_RUNTIME_DIR`, then in a non-empty `TMPDIR` (joined with one `/`);
/// and a later source is never consulted when an earlier one is set.
pub proof fn law_socket_resolution_order(
    o: Option<Seq<char>>,
    e: Option<Seq<char>>,
    x: Option<Seq<char>>,
    t: Option<Seq<char>>,
    uid: u32,
    e2: Option<Seq<char>>,
    x2: Option<Seq<char>>,
    t2: Option<Seq<char>>,
)
    ensures
        o matches Some(p) ==> resolve_spec(o, e, x, t, uid) == p,
        o is None && e is Some ==> resolve_spec(o, e, x, t, uid) == e->0,
        o is Some ==> resolve_spec(o, e, x, t, uid) == resolve_spec(o, e2, x2, t2, uid),
        o is None && e is Some ==> resolve_spec(o, e, x, t, uid) == resolve_spec(o, e, x2, t2, uid),
        o is None && e is None && (x matches Some(d) && d.len() > 0 && d.last() != '/') ==> resolve_spec(o, e, x, t, uid) == x->0
            + "/abtop.sock"@,
        o is None && e is None && (x matches Some(d) && d.len() > 0 && d.last() == '/') ==> resolve_spec(o, e, x, t, uid) == x->0
            + "abtop.sock"@,
        o is None && e is None && (x is None || x->0.len() == 0) && (t matches Some(d) && d.len() > 0 && d.last() != '/')
            ==> resolve_spec(o, e, x, t, uid) == t->0 + "/abtop.sock"@,
{
    reveal_strlit("abtop.sock");
    reveal_strlit("/abtop.sock");
    match x {
        Some(d) => {
            assert(d + seq!['/'] + "abtop.sock"@ =~= d + "/abtop.sock"@);
        },
        None => {},
    }
    match t {
        Some(d) => {
            assert(d + seq!['/'] + "abtop.sock"@ =~= d + "/abtop.sock"@);
        },
        None => {},
    }
}
} // verus!
