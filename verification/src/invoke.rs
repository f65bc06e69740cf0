//! What the System Notifier hands its conduit: the request (resolved
//! conduit path, arguments, rendered title and body, the record and the
//! timeout) and the curated environment — `ABTOP_TITLE`, `ABTOP_BODY`,
//! `ABTOP_EVENT_TYPE`, `ABTOP_TS_MS`, and one `ABTOP_FIELD_<KEY>` per
//! top-level field of the event, capped at [`MAX_FIELD_ENV_BYTES`].
//! Spawning the process and waiting for it is left to the caller.
use vstd::prelude::*;
use crate::event_config::{expand_in, ExpansionEnv};
use crate::event_key::{JsonObject, JsonValue};
use crate::events::WireRecord;
use crate::system_notifier::SystemNotifierConfig;
use crate::text::{chars_of, extend_chars, push_decimal, string_of, trim_bounds, utf8_len, utf8_width};

verus! {

/// Cap on the size of one `ABTOP_FIELD_*` variable. The full payload
/// still travels on stdin; the cap only bounds the shortcut.
pub const MAX_FIELD_ENV_BYTES: usize = 4 * 1024;

/// Cap on the stderr tail kept for the log, in bytes.
pub const STDERR_TAIL_BYTES: usize = 256;

/// One conduit invocation, prepared by the worker.
#[derive(Debug)]
pub struct InvokeRequest {
    /// Conduit path after `~` / `${VAR}` expansion.
    pub conduit: String,
    pub conduit_args: Vec<String>,
    /// Rendered title.
    pub title: String,
    /// Rendered body.
    pub body: String,
    /// The record: serialized on stdin, walked for the field variables.
    pub record: WireRecord,
    /// Wall-clock timeout of the invocation.
    pub timeout_ms: u64,
}

#[verifier::external_type_specification]
#[verifier::external_body]
pub struct ExIoError(std::io::Error);

/// Why an invocation failed. Failures are logged, never retried.
#[derive(Debug)]
pub enum InvokeError {
    /// The conduit did not exit within the timeout; it was killed and
    /// reaped.
    Timeout,
    /// The conduit exited with a non-zero status; the tail of its stderr
    /// is kept.
    NonZeroExit { status: i32, stderr_tail: String },
    /// The conduit could not be spawned.
    SpawnFailed(std::io::Error),
    /// Writing the payload to the conduit's stdin failed.
    StdinWriteFailed(std::io::Error),
}

/// The invoker that spawns the conduit as a subprocess.
#[derive(Default, Debug, Clone, Copy)]
pub struct RealInvoker;

/// Calls `Display::to_string` on an `io::Error`. Nothing is stated of
/// the text: it comes from the operating system.
#[verifier::external_body]
fn io_error_text(e: &std::io::Error) -> String {
    e.to_string()
}

fn push_str(out: &mut Vec<char>, s: &str)
    ensures
        final(out)@ == old(out)@ + s@,
{
    let c = chars_of(s);
    extend_chars(out, c.as_slice(), 0, c.len());
    assert(c@.subrange(0, c@.len() as int) =~= c@);
}

/// Decimal rendering of a signed integer.
pub open spec fn signed_decimal(i: int) -> Seq<char> {
    if i < 0 {
        seq!['-'] + crate::text::decimal((-i) as nat)
    } else {
        crate::text::decimal(i as nat)
    }
}

/// The log text of an error, for the variants whose text is the crate's
/// own.
pub open spec fn error_message(e: InvokeError) -> Option<Seq<char>> {
    match e {
        InvokeError::Timeout => Some("conduit timed out"@),
        InvokeError::NonZeroExit { status, stderr_tail } => Some(
            if stderr_tail@.len() == 0 {
                "conduit exited with status "@ + signed_decimal(status as int)
            } else {
                "conduit exited with status "@ + signed_decimal(status as int) + ": "@ + stderr_tail@
            },
        ),
        _ => None,
    }
}

impl InvokeError {
    /// The log text of the error.
    pub fn message(&self) -> (r: String)
        ensures
            error_message(*self) matches Some(m) ==> r@ == m,
            self is SpawnFailed ==> r@.len() >= "conduit spawn failed: "@.len()
                && r@.subrange(0, "conduit spawn failed: "@.len() as int) == "conduit spawn failed: "@,
            self is StdinWriteFailed ==> r@.len() >= "conduit stdin write failed: "@.len()
                && r@.subrange(0, "conduit stdin write failed: "@.len() as int) == "conduit stdin write failed: "@,
    {
        let mut out: Vec<char> = Vec::new();
        match self {
            InvokeError::Timeout => {
                push_str(&mut out, "conduit timed out");
            },
            InvokeError::NonZeroExit { status, stderr_tail } => {
                push_str(&mut out, "conduit exited with status ");
                if *status < 0 {
                    out.push('-');
                    let magnitude: u128 = (-(*status as i64)) as u128;
                    push_decimal(&mut out, magnitude);
                } else {
                    push_decimal(&mut out, *status as u128);
                }
                if !stderr_tail.as_str().is_empty() {
                    push_str(&mut out, ": ");
                    push_str(&mut out, stderr_tail.as_str());
                }
                proof {
                    let head = "conduit exited with status "@ + signed_decimal(*status as int);
                    if stderr_tail@.len() == 0 {
                        assert(out@ =~= head);
                    } else {
                        assert(out@ =~= head + ": "@ + stderr_tail@);
                    }
                }
            },
            InvokeError::SpawnFailed(e) => {
                push_str(&mut out, "conduit spawn failed: ");
                let t = io_error_text(e);
                let ghost before = out@;
                push_str(&mut out, t.as_str());
                assert(out@.subrange(0, before.len() as int) =~= before);
            },
            InvokeError::StdinWriteFailed(e) => {
                push_str(&mut out, "conduit stdin write failed: ");
                let t = io_error_text(e);
                let ghost before = out@;
                push_str(&mut out, t.as_str());
                assert(out@.subrange(0, before.len() as int) =~= before);
            },
        }
        string_of(out.as_slice())
    }
}

/// Builds the request for `rec` from the configuration snapshot: the
/// conduit path is expanded with `env`; title and body come rendered.
pub fn build_request(
    cfg: &SystemNotifierConfig,
    rec: &WireRecord,
    title: String,
    body: String,
    env: &ExpansionEnv,
) -> (r: InvokeRequest)
    ensures
        r.conduit@ == expand_in(cfg.conduit@, *env),
        r.conduit_args@.len() == cfg.conduit_args@.len(),
        forall|i: int| 0 <= i < cfg.conduit_args@.len() ==> (#[trigger] r.conduit_args@[i])@ == cfg.conduit_args@[i]@,
        r.title@ == title@,
        r.body@ == body@,
        r.record.v == rec.v,
        r.record.ts_ms == rec.ts_ms,
        r.record.event@ == rec.event@,
        r.timeout_ms == cfg.conduit_timeout_ms,
{
    let conduit = crate::interpolation::expand_with(cfg.conduit.as_str(), &env.vars, env.uid.clone(), env.home.clone());
    let mut args: Vec<String> = Vec::new();
    let mut i: usize = 0;
    while i < cfg.conduit_args.len()
        invariant
            i <= cfg.conduit_args.len(),
            args@.len() == i,
            forall|j: int| 0 <= j < i ==> (#[trigger] args@[j])@ == cfg.conduit_args@[j]@,
        decreases cfg.conduit_args.len() - i,
    {
        args.push(cfg.conduit_args[i].clone());
        i = i + 1;
    }
    InvokeRequest {
        conduit,
        conduit_args: args,
        title,
        body,
        record: rec.duplicate(),
        timeout_ms: cfg.conduit_timeout_ms,
    }
}

/// Number of leading characters of `s` whose UTF-8 encoding fits in
/// `budget` bytes.
pub open spec fn fit_count(s: Seq<char>, budget: int) -> nat
    decreases s.len(),
{
    if s.len() == 0 || utf8_width(s[0]) > budget {
        0
    } else {
        1 + fit_count(s.drop_first(), budget - utf8_width(s[0]))
    }
}

/// `s` cut to its longest prefix of at most `max_bytes` UTF-8 bytes that
/// ends on a character boundary.
pub open spec fn truncate_to_spec(s: Seq<char>, max_bytes: nat) -> Seq<char> {
    s.subrange(0, fit_count(s, max_bytes as int) as int)
}

proof fn lemma_fit_count_step(s: Seq<char>, i: int, budget: int)
    requires
        0 <= i < s.len(),
        utf8_len(s.subrange(0, i)) + utf8_width(s[i]) <= budget,
        fit_count(s, budget) >= i,
    ensures
        fit_count(s, budget) >= i + 1,
    decreases i,
{
    crate::text::lemma_utf8_len_bound(s.subrange(0, i));
    if i > 0 {
        let t = s.drop_first();
        lemma_utf8_len_first(s.subrange(0, i));
        assert(s.subrange(0, i).drop_first() =~= t.subrange(0, i - 1));
        assert(s.subrange(0, i)[0] == s[0]);
        lemma_fit_count_step(t, i - 1, budget - utf8_width(s[0]));
    }
}

proof fn lemma_utf8_len_first(s: Seq<char>)
    requires
        s.len() > 0,
    ensures
        utf8_len(s) == utf8_width(s[0]) + utf8_len(s.drop_first()),
    decreases s.len(),
{
    if s.len() > 1 {
        lemma_utf8_len_first(s.drop_last());
        assert(s.drop_last().drop_first() =~= s.drop_first().drop_last());
        assert(s.drop_last()[0] == s[0]);
        assert(s.drop_first().last() == s.last());
    } else {
        assert(s.drop_first().len() == 0);
        assert(s.drop_last().len() == 0);
        assert(s.last() == s[0]);
        assert(utf8_len(s.drop_last()) == 0);
        assert(utf8_len(s.drop_first()) == 0);
    }
}

proof fn lemma_fit_count_stop(s: Seq<char>, i: int, budget: int)
    requires
        0 <= i <= s.len(),
        i == s.len() || utf8_len(s.subrange(0, i)) + utf8_width(s[i]) > budget,
        utf8_len(s.subrange(0, i)) <= budget,
        fit_count(s, budget) >= i,
    ensures
        fit_count(s, budget) == i,
    decreases i,
{
    if i == 0 {
        if s.len() > 0 {
            assert(utf8_len(s.subrange(0, 0)) == 0);
        }
    } else {
        let t = s.drop_first();
        lemma_utf8_len_first(s.subrange(0, i));
        assert(s.subrange(0, i).drop_first() =~= t.subrange(0, i - 1));
        assert(s.subrange(0, i)[0] == s[0]);
        if i < s.len() {
            assert(t[i - 1] == s[i]);
        }
        lemma_fit_count_stop(t, i - 1, budget - utf8_width(s[0]));
    }
}

proof fn lemma_fit_count_len(s: Seq<char>, budget: int)
    ensures
        fit_count(s, budget) <= s.len(),
        utf8_len(s.subrange(0, fit_count(s, budget) as int)) <= budget || fit_count(s, budget) == 0,
    decreases s.len(),
{
    if s.len() > 0 && utf8_width(s[0]) <= budget {
        lemma_fit_count_len(s.drop_first(), budget - utf8_width(s[0]));
        let k = fit_count(s, budget) as int;
        lemma_utf8_len_first(s.subrange(0, k));
        assert(s.subrange(0, k).drop_first() =~= s.drop_first().subrange(0, k - 1));
        assert(s.subrange(0, k)[0] == s[0]);
    }
}

/// Number of leading characters of `v[from..]` that fit in `budget`
/// bytes.
fn fit_prefix(v: &Vec<char>, budget: usize) -> (r: usize)
    ensures
        r == fit_count(v@, budget as int),
        r <= v.len(),
{
    let mut used: usize = 0;
    let mut i: usize = 0;
    proof {
        assert(utf8_len(v@.subrange(0, 0)) == 0);
    }
    while i < v.len() && char_width(v[i]) <= budget - used
        invariant
            i <= v.len(),
            used == utf8_len(v@.subrange(0, i as int)),
            used <= budget,
            fit_count(v@, budget as int) >= i,
        decreases v.len() - i,
    {
        proof {
            lemma_fit_count_step(v@, i as int, budget as int);
            assert(v@.subrange(0, i + 1).drop_last() =~= v@.subrange(0, i as int));
        }
        used = used + char_width(v[i]);
        i = i + 1;
    }
    proof {
        lemma_fit_count_stop(v@, i as int, budget as int);
    }
    i
}

fn char_width(c: char) -> (r: usize)
    ensures
        r == utf8_width(c),
{
    crate::text::char_utf8_width(c)
}

/// Truncates `s` to at most `max_bytes` bytes, cutting at a character
/// boundary.
pub fn truncate_to(s: &str, max_bytes: usize) -> (r: String)
    ensures
        r@ == truncate_to_spec(s@, max_bytes as nat),
{
    let v = chars_of(s);
    let k = fit_prefix(&v, max_bytes);
    crate::text::substring(v.as_slice(), 0, k)
}

/// What `str::to_uppercase` gives for `s` (Unicode upper-case mapping).
pub uninterp spec fn upper_case(s: Seq<char>) -> Seq<char>;

/// Calls `str::to_uppercase`; the result is named [`upper_case`], the
/// Unicode case tables are not restated here.
#[verifier::external_body]
fn to_upper(s: &str) -> (r: String)
    ensures
        r@ == upper_case(s@),
{
    s.to_uppercase()
}

/// Text of a field value in its environment variable: strings bare,
/// `null` empty, everything else as compact JSON.
pub open spec fn env_text(v: JsonValue) -> Seq<char> {
    match v {
        JsonValue::Null => seq![],
        JsonValue::Str(s) => s@,
        JsonValue::Bool(b) => if b {
            "true"@
        } else {
            "false"@
        },
        JsonValue::Number(t) => t@,
        JsonValue::Composite(t) => t@,
    }
}

/// The record's own keys, exposed through dedicated variables.
pub open spec fn is_envelope_key(k: Seq<char>) -> bool {
    k == "v"@ || k == "ts_ms"@ || k == "type"@
}

/// The environment after one more field of the record.
pub open spec fn with_field(m: Map<Seq<char>, Seq<char>>, f: (String, JsonValue)) -> Map<Seq<char>, Seq<char>> {
    if is_envelope_key(f.0@) {
        m
    } else {
        m.insert("ABTOP_FIELD_"@ + upper_case(f.0@), truncate_to_spec(env_text(f.1), MAX_FIELD_ENV_BYTES as nat))
    }
}

/// The environment after the fields, in order (a later key wins).
pub open spec fn with_fields(m: Map<Seq<char>, Seq<char>>, fields: Seq<(String, JsonValue)>) -> Map<Seq<char>, Seq<char>>
    decreases fields.len(),
{
    if fields.len() == 0 {
        m
    } else {
        with_field(with_fields(m, fields.drop_last()), fields.last())
    }
}

/// The curated variables of an invocation.
pub open spec fn curated_env(title: Seq<char>, body: Seq<char>, rec: WireRecord) -> Map<Seq<char>, Seq<char>> {
    Map::<Seq<char>, Seq<char>>::empty().insert("ABTOP_TITLE"@, title).insert("ABTOP_BODY"@, body).insert(
        "ABTOP_EVENT_TYPE"@,
        crate::events::type_name_of(rec.event@),
    ).insert("ABTOP_TS_MS"@, crate::text::decimal(rec.ts_ms as nat))
}

/// The full environment: the curated variables, then one per field of
/// the serialized record (none when it is not an object).
pub open spec fn env_spec(title: Seq<char>, body: Seq<char>, rec: WireRecord, fields: JsonObject) -> Map<Seq<char>, Seq<char>> {
    match fields {
        None => curated_env(title, body, rec),
        Some(f) => with_fields(curated_env(title, body, rec), f@),
    }
}

/// The map an environment list stands for.
pub open spec fn env_of(v: Seq<(String, String)>) -> Map<Seq<char>, Seq<char>> {
    crate::keyed::as_map(v).map_values(|s: String| s@)
}

fn set_var(env: &mut Vec<(String, String)>, k: String, v: String)
    ensures
        env_of(final(env)@) == env_of(old(env)@).insert(k@, v@),
{
    let ghost kv = k@;
    let ghost vv = v@;
    crate::keyed::insert(env, k, v);
    proof {
        assert(env_of(env@) =~= env_of(old(env)@).insert(kv, vv));
    }
}

/// Builds the variables of an invocation. `record_fields` are the
/// top-level fields of the serialized record (`None` when it is not an
/// object).
pub fn build_env(title: &str, body: &str, rec: &WireRecord, record_fields: &JsonObject) -> (r: Vec<(String, String)>)
    ensures
        env_of(r@) == env_spec(title@, body@, *rec, *record_fields),
{
    let mut env: Vec<(String, String)> = Vec::new();
    assert(env_of(env@) =~= Map::<Seq<char>, Seq<char>>::empty());
    set_var(&mut env, String::from_str("ABTOP_TITLE"), String::from_str(title));
    set_var(&mut env, String::from_str("ABTOP_BODY"), String::from_str(body));
    set_var(&mut env, String::from_str("ABTOP_EVENT_TYPE"), String::from_str(rec.event.type_tag()));
    let mut ts: Vec<char> = Vec::new();
    push_decimal(&mut ts, rec.ts_ms as u128);
    assert(ts@ =~= crate::text::decimal(rec.ts_ms as nat));
    set_var(&mut env, String::from_str("ABTOP_TS_MS"), string_of(ts.as_slice()));
    assert(env_of(env@) == curated_env(title@, body@, *rec));
    match record_fields {
        None => {},
        Some(fields) => {
            let ghost base = curated_env(title@, body@, *rec);
            let mut i: usize = 0;
            assert(fields@.subrange(0, 0) =~= Seq::<(String, JsonValue)>::empty());
            while i < fields.len()
                invariant
                    i <= fields.len(),
                    env_of(env@) == with_fields(base, fields@.subrange(0, i as int)),
                decreases fields.len() - i,
            {
                let ghost pre = env_of(env@);
                let key = &fields[i].0;
                if !(key_is(key, "v") || key_is(key, "ts_ms") || key_is(key, "type")) {
                    let text = value_env_text(&fields[i].1);
                    let truncated = truncate_to(text.as_str(), MAX_FIELD_ENV_BYTES);
                    let mut name: Vec<char> = Vec::new();
                    push_str(&mut name, "ABTOP_FIELD_");
                    let upper = to_upper(key.as_str());
                    push_str(&mut name, upper.as_str());
                    set_var(&mut env, string_of(name.as_slice()), truncated);
                }
                proof {
                    assert(fields@.subrange(0, i + 1).drop_last() =~= fields@.subrange(0, i as int));
                    assert(fields@.subrange(0, i + 1).last() == fields@[i as int]);
                }
                i = i + 1;
            }
            assert(fields@.subrange(0, fields.len() as int) =~= fields@);
        },
    }
    env
}

fn key_is(key: &String, word: &str) -> (r: bool)
    ensures
        r == (key@ == word@),
{
    *key == String::from_str(word)
}

fn value_env_text(v: &JsonValue) -> (r: String)
    ensures
        r@ == env_text(*v),
{
    match v {
        JsonValue::Null => String::new(),
        JsonValue::Str(s) => s.clone(),
        JsonValue::Bool(b) => if *b {
            String::from_str("true")
        } else {
            String::from_str("false")
        },
        JsonValue::Number(t) => t.clone(),
        JsonValue::Composite(t) => t.clone(),
    }
}

/// The tail of a failed conduit's stderr kept for the log: trimmed, and
/// cut to its first [`STDERR_TAIL_BYTES`] bytes followed by `…` when
/// longer.
pub open spec fn stderr_tail_spec(text: Seq<char>) -> Seq<char> {
    let t = crate::text::trim(text);
    if utf8_len(t) > STDERR_TAIL_BYTES {
        truncate_to_spec(t, STDERR_TAIL_BYTES as nat) + seq!['…']
    } else {
        t
    }
}

/// Interval between two polls of a running conduit, in milliseconds.
pub const POLL_MS: u64 = 25;

/// How long to sleep before the next poll of a conduit that is still
/// running, `remaining_ms` before its deadline: `None` once the deadline
/// has passed (the conduit is then killed), else the poll interval or the
/// rest of the time, whichever is shorter.
pub fn next_poll_ms(remaining_ms: u64) -> (r: Option<u64>)
    ensures
        remaining_ms == 0 ==> r is None,
        remaining_ms > 0 ==> r == Some(if remaining_ms < POLL_MS { remaining_ms } else { POLL_MS }),
{
    if remaining_ms == 0 {
        None
    } else if remaining_ms < POLL_MS {
        Some(remaining_ms)
    } else {
        Some(POLL_MS)
    }
}

/// The result of a conduit that exited: `Ok` on success, else the exit
/// code (-1 when killed by a signal) with the tail of its stderr.
pub fn exit_outcome(success: bool, code: Option<i32>, stderr_tail: String) -> (r: Result<(), InvokeError>)
    ensures
        success ==> r is Ok,
        !success ==> r == Err::<(), InvokeError>((InvokeError::NonZeroExit {
            status: match code {
                Some(c) => c,
                None => -1i32,
            },
            stderr_tail,
        })),
{
    if success {
        return Ok(());
    }
    let status = match code {
        Some(c) => c,
        None => -1,
    };
    Err(InvokeError::NonZeroExit { status, stderr_tail })
}

/// The tail of a failed conduit's stderr (decoded by the caller) kept
/// for the log. A trimmed text longer than [`STDERR_TAIL_BYTES`] bytes
/// must have a character boundary at that byte.
pub fn stderr_tail(text: &str) -> (r: String)
    requires
        utf8_len(crate::text::trim(text@)) > STDERR_TAIL_BYTES ==> utf8_len(
            truncate_to_spec(crate::text::trim(text@), STDERR_TAIL_BYTES as nat),
        ) == STDERR_TAIL_BYTES,
    ensures
        r@ == stderr_tail_spec(text@),
{
    let v = chars_of(text);
    let (a, b) = trim_bounds(&v);
    let mut t: Vec<char> = Vec::new();
    extend_chars(&mut t, v.as_slice(), a, b);
    let n = crate::text::utf8_len_of(&t, t.len());
    assert(t@.subrange(0, t.len() as int) =~= t@);
    if n > STDERR_TAIL_BYTES as u128 {
        let k = fit_prefix(&t, STDERR_TAIL_BYTES);
        let mut out: Vec<char> = Vec::new();
        extend_chars(&mut out, t.as_slice(), 0, k);
        out.push('…');
        assert(out@ =~= t@.subrange(0, k as int) + seq!['…']);
        return string_of(out.as_slice());
    }
    string_of(t.as_slice())
}

proof fn lemma_fit_count_fits(s: Seq<char>, budget: int)
    requires
        budget >= 0,
    ensures
        fit_count(s, budget) <= s.len(),
        utf8_len(s.subrange(0, fit_count(s, budget) as int)) <= budget,
        fit_count(s, budget) < s.len() ==> utf8_len(s.subrange(0, fit_count(s, budget) as int + 1)) > budget,
    decreases s.len(),
{
    if s.len() == 0 {
        assert(s.subrange(0, 0) =~= Seq::<char>::empty());
    } else {
        let w = utf8_width(s[0]);
        assert(s.subrange(0, 0) =~= Seq::<char>::empty());
        lemma_utf8_len_first(s.subrange(0, 1));
        assert(s.subrange(0, 1).drop_first() =~= Seq::<char>::empty());
        if w <= budget {
            let t = s.drop_first();
            lemma_fit_count_fits(t, budget - w);
            let f: int = fit_count(t, budget - w) as int;
            lemma_utf8_len_first(s.subrange(0, f + 1));
            assert(s.subrange(0, f + 1).drop_first() =~= t.subrange(0, f));
            if f < t.len() {
                lemma_utf8_len_first(s.subrange(0, f + 2));
                assert(s.subrange(0, f + 2).drop_first() =~= t.subrange(0, f + 1));
            }
        }
    }
}

/// [`truncate_to`] keeps the longest prefix that fits: the result takes at
/// most `max_bytes` bytes, and every longer prefix of `s` takes more.
pub proof fn law_truncate_to_longest_fit(s: Seq<char>, max_bytes: nat)
    ensures
        utf8_len(truncate_to_spec(s, max_bytes)) <= max_bytes,
        forall|k: int| fit_count(s, max_bytes as int) < k <= s.len() ==> utf8_len(#[trigger] s.subrange(0, k)) > max_bytes,
{
    lemma_fit_count_fits(s, max_bytes as int);
    let f: int = fit_count(s, max_bytes as int) as int;
    assert forall|k: int| f < k <= s.len() implies utf8_len(#[trigger] s.subrange(0, k)) > max_bytes by {
        crate::text::lemma_utf8_len_concat(s.subrange(0, f + 1), s.subrange(f + 1, k));
        assert(s.subrange(0, f + 1) + s.subrange(f + 1, k) =~= s.subrange(0, k));
    }
}

} // verus!
