//! Stable identity hash for event payloads.
//!
//! An event payload is a flat JSON object ([`JsonValue`] per field). The
//! identity is the first field present among `session_id`, `provider`,
//! `port` and `pid`, hashed with FNV-1a over the UTF-8 bytes of the
//! field's compact JSON text. Collisions are harmless: the producer index
//! in the debounce key already tells rules apart.
use vstd::prelude::*;

verus! {

/// A JSON value as the payload logic reads it.
#[derive(Clone, Debug, PartialEq, Eq)]
pub enum JsonValue {
    Null,
    Bool(bool),
    /// A number, by its JSON text (as `serde_json` prints it).
    Number(String),
    /// A string, unescaped.
    Str(String),
    /// An array or object, by its compact JSON text.
    Composite(String),
}

/// The fields of a JSON object, in order; `None` stands for a value that
/// is not an object.
pub type JsonObject = Option<Vec<(String, JsonValue)>>;

/// Lower-case hex digit of `d` (`0 <= d < 16`).
pub open spec fn hex_lower(d: u32) -> char {
    if d < 10 {
        (48 + d) as char
    } else {
        (87 + d) as char
    }
}

/// How one character of a string stands in JSON text: `"` and `\`
/// behind a backslash, backspace, tab, line feed, form feed and carriage
/// return as `\b \t \n \f \r`, other control characters below 0x20 as
/// `\u00XX` with lower-case hex digits, everything else as itself.
pub open spec fn json_escape_char(c: char) -> Seq<char> {
    let u = c as u32;
    if c == '"' {
        seq!['\\', '"']
    } else if c == '\\' {
        seq!['\\', '\\']
    } else if u == 0x08 {
        seq!['\\', 'b']
    } else if u == 0x09 {
        seq!['\\', 't']
    } else if u == 0x0A {
        seq!['\\', 'n']
    } else if u == 0x0C {
        seq!['\\', 'f']
    } else if u == 0x0D {
        seq!['\\', 'r']
    } else if u < 0x20 {
        seq!['\\', 'u', '0', '0', hex_lower(u / 16), hex_lower(u % 16)]
    } else {
        seq![c]
    }
}

/// The characters of `s`, each escaped by [`json_escape_char`].
pub open spec fn json_escaped(s: Seq<char>) -> Seq<char>
    decreases s.len(),
{
    if s.len() == 0 {
        seq![]
    } else {
        json_escaped(s.drop_last()) + json_escape_char(s.last())
    }
}

/// What `serde_json::to_string` gives for a string: the escaped
/// characters between double quotes.
pub open spec fn json_quoted(s: Seq<char>) -> Seq<char> {
    seq!['"'] + json_escaped(s) + seq!['"']
}

#[verifier::external_type_specification]
#[verifier::external_body]
pub struct ExJsonError(serde_json::Error);

/// Calls `serde_json::to_string` on a `str`. The value is the JSON string
/// literal of `s` as [`json_quoted`] spells it (the escape table and
/// `write_char_escape` of serde_json's `ser.rs`). For a `str` the
/// serializer only writes into a `Vec<u8>`, whose `io::Write` never
/// fails, so the result is `Ok`.
#[verifier::external_body]
fn json_string(s: &str) -> (r: Result<String, serde_json::Error>)
    ensures
        r is Ok,
        r is Ok ==> r->Ok_0@ == json_quoted(s@),
{
    serde_json::to_string(s)
}

/// Compact JSON text of a value.
pub open spec fn json_text(v: JsonValue) -> Seq<char> {
    match v {
        JsonValue::Null => "null"@,
        JsonValue::Bool(b) => if b {
            "true"@
        } else {
            "false"@
        },
        JsonValue::Number(t) => t@,
        JsonValue::Str(s) => json_quoted(s@),
        JsonValue::Composite(t) => t@,
    }
}

/// Compact JSON text of `v`, as `serde_json` prints it.
pub fn to_json_text(v: &JsonValue) -> (r: String)
    ensures
        r@ == json_text(*v),
{
    match v {
        JsonValue::Null => String::from_str("null"),
        JsonValue::Bool(b) => if *b {
            String::from_str("true")
        } else {
            String::from_str("false")
        },
        JsonValue::Number(t) => t.clone(),
        JsonValue::Str(s) => match json_string(s.as_str()) {
            Ok(t) => t,
            Err(_) => String::new(),
        },
        JsonValue::Composite(t) => t.clone(),
    }
}

pub const FNV_OFFSET: u64 = 0xcbf2_9ce4_8422_2325;

pub const FNV_PRIME: u64 = 0x0000_0100_0000_01B3;

/// One FNV-1a step: xor in the byte, then multiply modulo 2^64.
pub open spec fn fnv_step(h: u64, b: u8) -> u64 {
    vstd::wrapping::u64_specs::wrapping_mul(h ^ (b as u64), FNV_PRIME)
}

/// FNV-1a state after feeding `bytes` to `h`.
pub open spec fn fnv_fold(h: u64, bytes: Seq<u8>) -> u64
    decreases bytes.len(),
{
    if bytes.len() == 0 {
        h
    } else {
        fnv_fold(fnv_step(h, bytes[0]), bytes.drop_first())
    }
}

/// 64-bit FNV-1a of `bytes`.
pub open spec fn fnv1a_spec(bytes: Seq<u8>) -> u64 {
    fnv_fold(FNV_OFFSET, bytes)
}

proof fn lemma_fnv_fold_push(h: u64, bytes: Seq<u8>, b: u8)
    ensures
        fnv_fold(h, bytes.push(b)) == fnv_step(fnv_fold(h, bytes), b),
    decreases bytes.len(),
{
    if bytes.len() > 0 {
        assert(bytes.push(b).drop_first() =~= bytes.drop_first().push(b));
        assert(bytes.push(b)[0] == bytes[0]);
        lemma_fnv_fold_push(fnv_step(h, bytes[0]), bytes.drop_first(), b);
    } else {
        assert(bytes.push(b).drop_first() =~= Seq::<u8>::empty());
        assert(bytes.push(b)[0] == b);
        assert(fnv_fold(fnv_step(h, b), Seq::<u8>::empty()) == fnv_step(h, b));
    }
}

/// 64-bit FNV-1a hash of `bytes`.
pub fn fnv1a(bytes: &[u8]) -> (r: u64)
    ensures
        r == fnv1a_spec(bytes@),
{
    let mut h = FNV_OFFSET;
    let mut i: usize = 0;
    while i < bytes.len()
        invariant
            i <= bytes.len(),
            h == fnv_fold(FNV_OFFSET, bytes@.subrange(0, i as int)),
        decreases bytes.len() - i,
    {
        proof {
            lemma_fnv_fold_push(FNV_OFFSET, bytes@.subrange(0, i as int), bytes@[i as int]);
            assert(bytes@.subrange(0, i as int).push(bytes@[i as int]) =~= bytes@.subrange(0, i + 1));
        }
        h = (h ^ (bytes[i] as u64)).wrapping_mul(FNV_PRIME);
        i = i + 1;
    }
    assert(bytes@.subrange(0, bytes.len() as int) =~= bytes@);
    h
}

/// Value of the first field named `name` in `fields`.
pub open spec fn field_value(fields: Seq<(String, JsonValue)>, name: Seq<char>) -> Option<JsonValue>
    decreases fields.len(),
{
    if fields.len() == 0 {
        None
    } else if fields[0].0@ == name {
        Some(fields[0].1)
    } else {
        field_value(fields.drop_first(), name)
    }
}

/// The value whose text is hashed: that of the first identity field
/// present.
pub open spec fn identity_value(fields: Seq<(String, JsonValue)>) -> Option<JsonValue> {
    match field_value(fields, "session_id"@) {
        Some(v) => Some(v),
        None => match field_value(fields, "provider"@) {
            Some(v) => Some(v),
            None => match field_value(fields, "port"@) {
                Some(v) => Some(v),
                None => field_value(fields, "pid"@),
            },
        },
    }
}

/// The identity hash of a payload (`None`: not an object).
pub open spec fn identity_hash(ctx: Option<Seq<(String, JsonValue)>>) -> u64 {
    match ctx {
        None => 0,
        Some(fields) => match identity_value(fields) {
            None => 0,
            Some(v) => fnv1a_spec(vstd::utf8::encode_utf8(json_text(v))),
        },
    }
}

/// The value of the first field named `name`.
pub fn find_field<'a>(fields: &'a Vec<(String, JsonValue)>, name: &str) -> (r: Option<&'a JsonValue>)
    ensures
        match r {
            Some(v) => field_value(fields@, name@) == Some(*v),
            None => field_value(fields@, name@) is None,
        },
{
    let n = String::from_str(name);
    let mut i: usize = 0;
    assert(fields@.subrange(0, fields.len() as int) =~= fields@);
    while i < fields.len()
        invariant
            i <= fields.len(),
            n@ == name@,
            field_value(fields@, name@) == field_value(fields@.subrange(i as int, fields.len() as int), name@),
        decreases fields.len() - i,
    {
        let ghost rest = fields@.subrange(i as int, fields.len() as int);
        assert(rest[0] == fields@[i as int]);
        if fields[i].0 == n {
            return Some(&fields[i].1);
        }
        assert(rest.drop_first() =~= fields@.subrange(i + 1, fields.len() as int));
        i = i + 1;
    }
    None
}

/// Stable hash of the event's identity: FNV-1a of the compact JSON text
/// of the first field present among `session_id`, `provider`, `port` and
/// `pid`; 0 when the payload is not an object or has none of them (such
/// events share one debounce bucket).
pub fn event_key_hash(ctx: &JsonObject) -> (r: u64)
    ensures
        r == identity_hash(match ctx {
            Some(f) => Some(f@),
            None => None,
        }),
{
    let fields = match ctx {
        Some(f) => f,
        None => return 0,
    };
    let v = match find_field(fields, "session_id") {
        Some(v) => v,
        None => match find_field(fields, "provider") {
            Some(v) => v,
            None => match find_field(fields, "port") {
                Some(v) => v,
                None => match find_field(fields, "pid") {
                    Some(v) => v,
                    None => return 0,
                },
            },
        },
    };
    let t = to_json_text(v);
    fnv1a(t.as_str().as_bytes())
}


/// When a payload has a `session_id`, the identity hash depends on it
/// alone: two payloads with the same `session_id` value hash alike,
/// whatever their other fields.
pub proof fn law_session_id_decides(f1: Seq<(String, JsonValue)>, f2: Seq<(String, JsonValue)>)
    requires
        field_value(f1, "session_id"@) is Some,
        field_value(f1, "session_id"@) == field_value(f2, "session_id"@),
    ensures
        identity_hash(Some(f1)) == identity_hash(Some(f2)),
{
}

/// A payload with none of the identity fields, or no object at all,
/// hashes to 0.
pub proof fn law_unkeyed_payload_hashes_to_zero(f: Seq<(String, JsonValue)>)
    requires
        field_value(f, "session_id"@) is None,
        field_value(f, "provider"@) is None,
        field_value(f, "port"@) is None,
        field_value(f, "pid"@) is None,
    ensures
        identity_hash(Some(f)) == 0,
        identity_hash(None) == 0,
{
}
} // verus!
