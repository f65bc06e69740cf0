//! Decisions of the plugin workers for one line read from the events
//! socket: skipping the publisher's `_meta` records, the matching payload
//! (the record's fields plus `kind`), which notifier rules fire, whether
//! the System Notifier invokes its conduit, and the pacing of reconnects
//! and rate-limited log lines. Reading the socket, rendering templates
//! and dispatching stay with the caller.
use vstd::prelude::*;
use crate::debounce::{after_offer, fires, DebouncerModel, Debouncer};
use crate::event_key::{event_key_hash, identity_hash, JsonObject, JsonValue};
use crate::rules::{object_model, rule_matches, CompiledRule, NumOrder};
use crate::system_notifier::SystemNotifierConfig;
use crate::text::chars_of;

verus! {

/// The marker of a publisher `_meta` record.
pub open spec fn meta_marker() -> Seq<char> {
    "\"_meta\":"@
}

/// `s` contains `p` at some position.
pub open spec fn contains_seq(s: Seq<char>, p: Seq<char>) -> bool {
    exists|i: int| 0 <= i && i + p.len() <= s.len() && #[trigger] s.subrange(i, i + p.len()) == p
}

/// Whether `line` is a publisher `_meta` record (it contains `"_meta":`);
/// such lines carry no event.
pub fn is_meta_line(line: &str) -> (r: bool)
    ensures
        r == contains_seq(line@, meta_marker()),
{
    let v = chars_of(line);
    let p = chars_of("\"_meta\":");
    proof {
        reveal_strlit("\"_meta\":");
    }
    assert(p@.len() == 8);
    let mut i: usize = 0;
    while p.len() <= v.len() && i <= v.len() - p.len()
        invariant
            i <= v.len(),
            p.len() == 8,
            v@ == line@,
            p@ == meta_marker(),
            forall|j: int| 0 <= j < i && j + p@.len() <= v@.len() ==> #[trigger] v@.subrange(j, j + p@.len()) != p@,
        decreases v.len() - i,
    {
        if crate::text::prefix_at(&v, i, p.as_slice()) {
            proof {
                assert(v@.subrange(i as int, v@.len() as int).subrange(0, p@.len() as int) =~= v@.subrange(i as int, i + p@.len()));
            }
            return true;
        }
        proof {
            assert(v@.subrange(i as int, v@.len() as int).subrange(0, p@.len() as int) =~= v@.subrange(i as int, i + p@.len()));
        }
        i = i + 1;
    }
    proof {
        assert forall|j: int| 0 <= j && j + p@.len() <= v@.len() implies #[trigger] v@.subrange(j, j + p@.len()) != p@ by {
            assert(j < i);
        }
    }
    false
}

/// Sets the `kind` field of the payload to `event_type`.
pub fn with_kind(fields: Vec<(String, JsonValue)>, event_type: &str) -> (r: Vec<(String, JsonValue)>)
    ensures
        crate::event_key::field_value(r@, "kind"@) matches Some(JsonValue::Str(s)) && s@ == event_type@,
        forall|k: Seq<char>| k != "kind"@ ==> crate::event_key::field_value(r@, k) == crate::event_key::field_value(fields@, k),
{
    let mut out: Vec<(String, JsonValue)> = Vec::new();
    let mut replaced = false;
    let mut rest = fields;
    let ghost orig = rest@;
    let kind = String::from_str("kind");
    while rest.len() > 0
        invariant
            kind@ == "kind"@,
            out@.len() + rest@.len() == orig.len(),
            rest@ == orig.subrange(out@.len() as int, orig.len() as int),
            replaced == exists|j: int| 0 <= j < out@.len() && (#[trigger] orig[j]).0@ == "kind"@,
            forall|j: int| 0 <= j < out@.len() ==> (#[trigger] out@[j]).0@ == orig[j].0@,
            forall|j: int| 0 <= j < out@.len() && orig[j].0@ != "kind"@ ==> (#[trigger] out@[j]).1 == orig[j].1,
            forall|j: int| 0 <= j < out@.len() && orig[j].0@ == "kind"@ ==> ((#[trigger] out@[j]).1 matches JsonValue::Str(s) && s@ == event_type@),
        decreases rest.len(),
    {
        let (k, v) = rest.remove(0);
        let ghost j = out@.len() as int;
        assert(orig[j] == (k, v));
        if k == kind {
            out.push((k, JsonValue::Str(String::from_str(event_type))));
            replaced = true;
        } else {
            out.push((k, v));
        }
        assert(rest@ =~= orig.subrange(out@.len() as int, orig.len() as int));
    }
    if !replaced {
        out.push((kind, JsonValue::Str(String::from_str(event_type))));
    }
    proof {
        assert(out@.len() >= orig.len());
        lemma_field_value_prefix(out@, orig, event_type@);
    }
    out
}

proof fn lemma_field_value_prefix(out: Seq<(String, JsonValue)>, orig: Seq<(String, JsonValue)>, kind: Seq<char>)
    requires
        out.len() == orig.len() || out.len() == orig.len() + 1,
        forall|j: int| 0 <= j < orig.len() ==> (#[trigger] out[j]).0@ == orig[j].0@,
        forall|j: int| 0 <= j < orig.len() && orig[j].0@ != "kind"@ ==> (#[trigger] out[j]).1 == orig[j].1,
        forall|j: int| 0 <= j < orig.len() && orig[j].0@ == "kind"@ ==> ((#[trigger] out[j]).1 matches JsonValue::Str(s) && s@ == kind),
        out.len() == orig.len() + 1 ==> (out.last().0@ == "kind"@ && (out.last().1 matches JsonValue::Str(s) && s@ == kind)),
        out.len() == orig.len() + 1 ==> forall|j: int| 0 <= j < orig.len() ==> (#[trigger] orig[j]).0@ != "kind"@,
        out.len() == orig.len() ==> exists|j: int| 0 <= j < orig.len() && (#[trigger] orig[j]).0@ == "kind"@,
    ensures
        crate::event_key::field_value(out, "kind"@) matches Some(JsonValue::Str(s)) && s@ == kind,
        forall|k: Seq<char>| k != "kind"@ ==> crate::event_key::field_value(out, k) == crate::event_key::field_value(orig, k),
    decreases orig.len(),
{
    if orig.len() == 0 {
        if out.len() == 1 {
            assert(out.drop_first().len() == 0);
            assert(out[0].0@ == "kind"@);
            assert forall|k: Seq<char>| k != "kind"@ implies crate::event_key::field_value(out, k) == crate::event_key::field_value(orig, k) by {
                assert(crate::event_key::field_value(out.drop_first(), k) is None);
            }
        }
    } else {
        assert(out[0].0@ == orig[0].0@);
        let o2 = out.drop_first();
        let g2 = orig.drop_first();
        assert forall|j: int| 0 <= j < g2.len() implies (#[trigger] o2[j]).0@ == g2[j].0@ by {
            assert(o2[j] == out[j + 1]);
            assert(g2[j] == orig[j + 1]);
        }
        assert forall|j: int| 0 <= j < g2.len() && g2[j].0@ != "kind"@ implies (#[trigger] o2[j]).1 == g2[j].1 by {
            assert(o2[j] == out[j + 1]);
            assert(g2[j] == orig[j + 1]);
        }
        assert forall|j: int| 0 <= j < g2.len() && g2[j].0@ == "kind"@ implies ((#[trigger] o2[j]).1 matches JsonValue::Str(s) && s@ == kind) by {
            assert(o2[j] == out[j + 1]);
            assert(g2[j] == orig[j + 1]);
        }
        if orig[0].0@ == "kind"@ {
            assert forall|j: int| g2.len() <= j < o2.len() implies (#[trigger] o2[j]).0@ == "kind"@ by {
                if out.len() == orig.len() + 1 {
                    assert(forall|j: int| 0 <= j < orig.len() ==> (#[trigger] orig[j]).0@ != "kind"@);
                    assert(orig[0].0@ != "kind"@);
                }
            }
            assert forall|k: Seq<char>| k != "kind"@ implies crate::event_key::field_value(out, k) == crate::event_key::field_value(orig, k) by {
                lemma_same_keys_other(o2, g2, k, kind);
            }
        } else {
            if out.len() == orig.len() + 1 {
                assert(o2.last() == out.last());
                assert forall|j: int| 0 <= j < g2.len() implies (#[trigger] g2[j]).0@ != "kind"@ by {
                    assert(g2[j] == orig[j + 1]);
                }
            } else {
                let w = choose|j: int| 0 <= j < orig.len() && (#[trigger] orig[j]).0@ == "kind"@;
                assert(w != 0);
                assert(g2[w - 1] == orig[w]);
            }
            lemma_field_value_prefix(o2, g2, kind);
            assert(out[0].1 == orig[0].1);
            assert forall|k: Seq<char>| k != "kind"@ implies crate::event_key::field_value(out, k) == crate::event_key::field_value(orig, k) by {
                assert(crate::event_key::field_value(o2, k) == crate::event_key::field_value(g2, k));
            }
        }
    }
}

proof fn lemma_same_keys_other(o: Seq<(String, JsonValue)>, g: Seq<(String, JsonValue)>, k: Seq<char>, kind: Seq<char>)
    requires
        o.len() >= g.len(),
        forall|j: int| 0 <= j < g.len() ==> (#[trigger] o[j]).0@ == g[j].0@,
        forall|j: int| 0 <= j < g.len() && g[j].0@ != "kind"@ ==> (#[trigger] o[j]).1 == g[j].1,
        forall|j: int| g.len() <= j < o.len() ==> (#[trigger] o[j]).0@ == "kind"@,
        k != "kind"@,
    ensures
        crate::event_key::field_value(o, k) == crate::event_key::field_value(g, k),
    decreases o.len(),
{
    if g.len() == 0 {
        lemma_no_key(o, k);
    } else {
        let o2 = o.drop_first();
        let g2 = g.drop_first();
        assert forall|j: int| 0 <= j < g2.len() implies (#[trigger] o2[j]).0@ == g2[j].0@ by {
            assert(o2[j] == o[j + 1]);
            assert(g2[j] == g[j + 1]);
        }
        assert forall|j: int| 0 <= j < g2.len() && g2[j].0@ != "kind"@ implies (#[trigger] o2[j]).1 == g2[j].1 by {
            assert(o2[j] == o[j + 1]);
            assert(g2[j] == g[j + 1]);
        }
        assert forall|j: int| g2.len() <= j < o2.len() implies (#[trigger] o2[j]).0@ == "kind"@ by {
            assert(o2[j] == o[j + 1]);
        }
        lemma_same_keys_other(o2, g2, k, kind);
    }
}

proof fn lemma_no_key(o: Seq<(String, JsonValue)>, k: Seq<char>)
    requires
        forall|j: int| 0 <= j < o.len() ==> (#[trigger] o[j]).0@ != k,
    ensures
        crate::event_key::field_value(o, k) is None,
    decreases o.len(),
{
    if o.len() > 0 {
        assert forall|j: int| 0 <= j < o.drop_first().len() implies (#[trigger] o.drop_first()[j]).0@ != k by {
            assert(o.drop_first()[j] == o[j + 1]);
        }
        lemma_no_key(o.drop_first(), k);
    }
}


/// The debounce window of a rule: its own, else the configured default.
pub open spec fn effective_ms(rule: CompiledRule, default_ms: u64) -> u64 {
    match rule.debounce_ms {
        Some(ms) => ms,
        None => default_ms,
    }
}

/// The debouncer and the positions of the rules that fire, after the
/// event is offered to each of `rules` in turn: a matching rule is
/// offered to the debouncer under `(rule.idx, hash)` at time `times[i]`
/// and fires when the debouncer lets it through.
pub open spec fn fire_fold(
    m: DebouncerModel,
    rules: Seq<CompiledRule>,
    event_type: Seq<char>,
    ctx: Option<Seq<(String, JsonValue)>>,
    numeric: Seq<Option<Option<NumOrder>>>,
    default_ms: u64,
    hash: u64,
    times: Seq<u128>,
) -> (DebouncerModel, Seq<usize>)
    decreases rules.len(),
{
    if rules.len() == 0 {
        (m, seq![])
    } else {
        let i = rules.len() - 1;
        let prev = fire_fold(m, rules.drop_last(), event_type, ctx, numeric, default_ms, hash, times);
        let rule = rules[i];
        if !rule_matches(rule, event_type, ctx, numeric[i]) {
            prev
        } else {
            let ms = effective_ms(rule, default_ms);
            let key = (rule.idx, hash);
            let m2 = after_offer(prev.0, key, ms, times[i]);
            if fires(prev.0.last, key, ms, times[i]) {
                (m2, prev.1.push(i as usize))
            } else {
                (m2, prev.1)
            }
        }
    }
}

proof fn lemma_fire_fold_times(
    m: DebouncerModel,
    rules: Seq<CompiledRule>,
    event_type: Seq<char>,
    ctx: Option<Seq<(String, JsonValue)>>,
    numeric: Seq<Option<Option<NumOrder>>>,
    default_ms: u64,
    hash: u64,
    t1: Seq<u128>,
    t2: Seq<u128>,
)
    requires
        forall|j: int| 0 <= j < rules.len() ==> t1[j] == t2[j],
    ensures
        fire_fold(m, rules, event_type, ctx, numeric, default_ms, hash, t1) == fire_fold(m, rules, event_type, ctx, numeric, default_ms, hash, t2),
    decreases rules.len(),
{
    if rules.len() > 0 {
        lemma_fire_fold_times(m, rules.drop_last(), event_type, ctx, numeric, default_ms, hash, t1, t2);
        assert(t1[rules.len() - 1] == t2[rules.len() - 1]);
    }
}

/// Offers the event (of type `event_type`, payload `ctx`) to the rules in
/// order and returns the positions of those that fire: a rule fires when
/// it matches and the debouncer lets `(rule.idx, identity hash)` through
/// under the rule's window (else `default_debounce_ms`). `numeric[i]` is,
/// for rule `i`, how the field its `when` reads compares with its
/// numeric literal (see [`crate::rules::eval_when`]).
pub fn rules_to_fire(
    rules: &Vec<CompiledRule>,
    event_type: &str,
    ctx: &JsonObject,
    numeric: &Vec<Option<Option<NumOrder>>>,
    debouncer: &mut Debouncer,
    default_debounce_ms: u64,
) -> (r: Vec<usize>)
    requires
        old(debouncer).wf(),
        numeric@.len() == rules@.len(),
    ensures
        final(debouncer).wf(),
        exists|times: Seq<u128>|
            times.len() == rules@.len() && fire_fold(
                old(debouncer)@,
                rules@,
                event_type@,
                object_model(*ctx),
                numeric@,
                default_debounce_ms,
                identity_hash(object_model(*ctx)),
                times,
            ) == (final(debouncer)@, r@),
{
    let hash = event_key_hash(ctx);
    let ghost h = identity_hash(object_model(*ctx));
    let ghost m0 = debouncer@;
    let ghost cm = object_model(*ctx);
    let ghost mut times: Seq<u128> = seq![];
    let mut out: Vec<usize> = Vec::new();
    let mut i: usize = 0;
    assert(rules@.subrange(0, 0) =~= Seq::<CompiledRule>::empty());
    while i < rules.len()
        invariant
            i <= rules.len() == numeric.len(),
            debouncer.wf(),
            hash == h,
            cm == object_model(*ctx),
            times.len() == i,
            fire_fold(m0, rules@.subrange(0, i as int), event_type@, cm, numeric@, default_debounce_ms, h, times) == (debouncer@, out@),
        decreases rules.len() - i,
    {
        let rule = &rules[i];
        let ghost before = debouncer@;
        let ghost t: u128 = 0;
        if crate::rules::matches(rule, event_type, ctx, numeric[i]) {
            let ms = match rule.debounce_ms {
                Some(ms) => ms,
                None => default_debounce_ms,
            };
            let fired = debouncer.allow((rule.idx, hash), ms);
            proof {
                t = choose|now: u128| fired == fires(before.last, (rule.idx, hash), ms, now) && debouncer@ == after_offer(before, (rule.idx, hash), ms, now);
            }
            if fired {
                out.push(i);
            }
        }
        proof {
            let t2 = times.push(t);
            lemma_fire_fold_times(m0, rules@.subrange(0, i as int), event_type@, cm, numeric@, default_debounce_ms, h, times, t2);
            let pre = rules@.subrange(0, i + 1);
            assert(pre.drop_last() =~= rules@.subrange(0, i as int));
            assert(pre[i as int] == rules@[i as int]);
            assert(t2[i as int] == t);
            times = t2;
        }
        i = i + 1;
    }
    assert(rules@.subrange(0, rules.len() as int) =~= rules@);
    out
}

/// Whether `names` (empty: every name) contains `name`.
fn names_admit(names: &Vec<String>, name: &str) -> (r: bool)
    ensures
        r == crate::rules::applies_to(names@, name@),
{
    if names.len() == 0 {
        return true;
    }
    let n = String::from_str(name);
    let mut i: usize = 0;
    while i < names.len()
        invariant
            i <= names.len(),
            n@ == name@,
            forall|j: int| 0 <= j < i ==> (#[trigger] names@[j])@ != name@,
        decreases names.len() - i,
    {
        if names[i] == n {
            return true;
        }
        i = i + 1;
    }
    false
}

/// Whether the System Notifier invokes its conduit for the event: its
/// type passes the `on` filter, and the debouncer lets
/// `(0, identity hash)` through under the configured window.
pub fn should_invoke(cfg: &SystemNotifierConfig, event_type: &str, ctx: &JsonObject, debouncer: &mut Debouncer) -> (r: bool)
    requires
        old(debouncer).wf(),
    ensures
        final(debouncer).wf(),
        !crate::rules::applies_to(cfg.on@, event_type@) ==> !r && final(debouncer)@ == old(debouncer)@,
        crate::rules::applies_to(cfg.on@, event_type@) ==> exists|now: u128|
            r == fires(old(debouncer)@.last, (0usize, identity_hash(object_model(*ctx))), cfg.debounce_ms, now)
                && final(debouncer)@ == after_offer(
                old(debouncer)@,
                (0usize, identity_hash(object_model(*ctx))),
                cfg.debounce_ms,
                now,
            ),
{
    if !names_admit(&cfg.on, event_type) {
        return false;
    }
    let hash = event_key_hash(ctx);
    debouncer.allow((0, hash), cfg.debounce_ms)
}

/// Minimum time between two rate-limited log lines, in nanoseconds.
pub const LOG_INTERVAL_NANOS: u128 = 30_000_000_000;

/// Whether a rate-limited log line may be written at `now`, the last one
/// having been written at `last` (both in nanoseconds on one clock).
pub fn log_due(last: Option<u128>, now: u128) -> (r: bool)
    ensures
        r == match last {
            None => true,
            Some(prev) => crate::debounce::age(now, prev) >= LOG_INTERVAL_NANOS,
        },
{
    match last {
        None => true,
        Some(prev) => {
            let age: u128 = if now >= prev {
                now - prev
            } else {
                0
            };
            age >= LOG_INTERVAL_NANOS
        },
    }
}

/// First reconnect delay, in milliseconds.
pub const BACKOFF_START_MS: u64 = 200;

/// Cap of the reconnect delay, in milliseconds.
pub const BACKOFF_CAP_MS: u64 = 5000;

/// The next reconnect delay: doubled, capped at [`BACKOFF_CAP_MS`].
pub fn next_backoff_ms(cur: u64) -> (r: u64)
    ensures
        r == (if 2 * cur < BACKOFF_CAP_MS {
            2 * cur
        } else {
            BACKOFF_CAP_MS as int
        }),
        r <= BACKOFF_CAP_MS,
        cur <= BACKOFF_CAP_MS ==> cur <= r,
        r == BACKOFF_CAP_MS || r == 2 * cur,
        cur == BACKOFF_CAP_MS ==> r == BACKOFF_CAP_MS,
{
    if cur < BACKOFF_CAP_MS / 2 + 1 && 2 * cur < BACKOFF_CAP_MS {
        2 * cur
    } else {
        BACKOFF_CAP_MS
    }
}

/// Only matching rules fire, each at most once and in rule order: every
/// fired position names a rule that matches the event, and the positions
/// increase.
pub proof fn law_fired_rules_match(
    m: DebouncerModel,
    rules: Seq<CompiledRule>,
    event_type: Seq<char>,
    ctx: Option<Seq<(String, JsonValue)>>,
    numeric: Seq<Option<Option<NumOrder>>>,
    default_ms: u64,
    hash: u64,
    times: Seq<u128>,
)
    requires
        numeric.len() == rules.len(),
        rules.len() <= usize::MAX,
    ensures
        ({
            let fired = fire_fold(m, rules, event_type, ctx, numeric, default_ms, hash, times).1;
            &&& forall|k: int| 0 <= k < fired.len() ==> (#[trigger] fired[k]) < rules.len() && rule_matches(
                rules[fired[k] as int],
                event_type,
                ctx,
                numeric[fired[k] as int],
            )
            &&& forall|a: int, b: int| 0 <= a < b < fired.len() ==> #[trigger] fired[a] < #[trigger] fired[b]
        }),
    decreases rules.len(),
{
    if rules.len() > 0 {
        let r0 = rules.drop_last();
        let n0 = numeric.drop_last();
        law_fired_rules_match(m, r0, event_type, ctx, n0, default_ms, hash, times);
        lemma_fire_fold_numeric(m, r0, event_type, ctx, numeric, n0, default_ms, hash, times);
        let prev = fire_fold(m, r0, event_type, ctx, numeric, default_ms, hash, times);
        let fired = fire_fold(m, rules, event_type, ctx, numeric, default_ms, hash, times).1;
        assert forall|k: int| 0 <= k < prev.1.len() implies (#[trigger] prev.1[k]) < r0.len() && rule_matches(
            rules[prev.1[k] as int], event_type, ctx, numeric[prev.1[k] as int]) by {
            assert(rules[prev.1[k] as int] == r0[prev.1[k] as int]);
            assert(numeric[prev.1[k] as int] == n0[prev.1[k] as int]);
        }
        if fired.len() > prev.1.len() {
            assert(fired == prev.1.push((rules.len() - 1) as usize));
        }
    }
}

proof fn lemma_fire_fold_numeric(
    m: DebouncerModel,
    rules: Seq<CompiledRule>,
    event_type: Seq<char>,
    ctx: Option<Seq<(String, JsonValue)>>,
    n1: Seq<Option<Option<NumOrder>>>,
    n2: Seq<Option<Option<NumOrder>>>,
    default_ms: u64,
    hash: u64,
    times: Seq<u128>,
)
    requires
        forall|j: int| 0 <= j < rules.len() ==> n1[j] == n2[j],
    ensures
        fire_fold(m, rules, event_type, ctx, n1, default_ms, hash, times) == fire_fold(m, rules, event_type, ctx, n2, default_ms, hash, times),
    decreases rules.len(),
{
    if rules.len() > 0 {
        lemma_fire_fold_numeric(m, rules.drop_last(), event_type, ctx, n1, n2, default_ms, hash, times);
        assert(n1[rules.len() - 1] == n2[rules.len() - 1]);
    }
}
} // verus!
