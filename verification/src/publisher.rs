//! Decisions of the events publisher: whether a tick publishes at all,
//! the pause flag, the checks made before binding the socket, and the
//! per-connection delivery bookkeeping — a consumer whose bounded queue
//! is full loses lines, and the count of lost lines is sent inline as a
//! `_meta` record before its next line. Sockets, threads and channels
//! stay with the caller.
use vstd::prelude::*;
use crate::socket_path::{too_long_message, validate_sun_path_length, SUN_PATH_MAX};
use crate::text::{chars_of, extend_chars, push_decimal, string_of, utf8_len};

verus! {

/// Whether a publish call does any work: the publisher is enabled, not
/// paused, and there are events.
pub fn publish_gate(enabled: bool, paused: bool, n_events: usize) -> (r: bool)
    ensures
        r == (enabled && !paused && n_events > 0),
{
    enabled && n_events > 0 && !paused
}

/// The pause flag as reported: never paused while disabled.
pub fn reported_paused(enabled: bool, paused: bool) -> (r: bool)
    ensures
        r == (enabled && paused),
{
    enabled && paused
}

/// The pause flag after a request: a disabled publisher ignores it.
pub fn paused_after(enabled: bool, current: bool, requested: bool) -> (r: bool)
    ensures
        r == (if enabled {
            requested
        } else {
            current
        }),
{
    if enabled {
        requested
    } else {
        current
    }
}

fn push_str(out: &mut Vec<char>, s: &str)
    ensures
        final(out)@ == old(out)@ + s@,
{
    let c = chars_of(s);
    extend_chars(out, c.as_slice(), 0, c.len());
    assert(c@.subrange(0, c@.len() as int) =~= c@);
}

/// The inline record announcing `count` lost lines.
pub open spec fn dropped_record(count: nat) -> Seq<char> {
    "{\"v\":"@ + crate::text::decimal(crate::events::WIRE_VERSION as nat) + ",\"_meta\":\"dropped\",\"count\":"@
        + crate::text::decimal(count) + "}\n"@
}

/// The `_meta` record announcing `count` lost lines.
pub fn dropped_meta_record(count: u64) -> (r: String)
    ensures
        r@ == dropped_record(count as nat),
{
    let mut out: Vec<char> = Vec::new();
    push_str(&mut out, "{\"v\":");
    push_decimal(&mut out, crate::events::WIRE_VERSION as u128);
    push_str(&mut out, ",\"_meta\":\"dropped\",\"count\":");
    push_decimal(&mut out, count as u128);
    push_str(&mut out, "}\n");
    assert(out@ =~= dropped_record(count as nat));
    string_of(out.as_slice())
}

/// `s` contains `${`.
pub open spec fn has_placeholder(s: Seq<char>) -> bool {
    exists|i: int| 0 <= i && i + 1 < s.len() && s[i] == '$' && #[trigger] s[i + 1] == '{'
}

/// The refusal of a path with an unresolved placeholder.
pub open spec fn placeholder_message(display: Seq<char>) -> Seq<char> {
    "socket path contains unresolved placeholder: "@ + display + " (check `[events] socket` in your config)"@
}

/// Checks made before binding the socket at `path` (`display` is how the
/// path is shown): it must fit in `sun_path`, and must hold no `${`
/// left by an unknown variable.
pub fn bind_preflight(path: &str, display: &str) -> (r: Result<(), String>)
    ensures
        utf8_len(path@) >= SUN_PATH_MAX ==> (r matches Err(m) && m@ == too_long_message(utf8_len(path@))),
        utf8_len(path@) < SUN_PATH_MAX && has_placeholder(path@) ==> (r matches Err(m) && m@ == placeholder_message(display@)),
        utf8_len(path@) < SUN_PATH_MAX && !has_placeholder(path@) ==> r is Ok,
{
    match validate_sun_path_length(path) {
        Err(e) => return Err(e),
        Ok(()) => {},
    }
    let v = chars_of(path);
    let mut i: usize = 0;
    while i < v.len() && i + 1 < v.len()
        invariant
            v@ == path@,
            utf8_len(path@) < SUN_PATH_MAX,
            i <= v.len(),
            forall|j: int| 0 <= j < i && j + 1 < v@.len() ==> !(v@[j] == '$' && #[trigger] v@[j + 1] == '{'),
        decreases v.len() - i,
    {
        if v[i] == '$' && v[i + 1] == '{' {
            let mut out: Vec<char> = Vec::new();
            push_str(&mut out, "socket path contains unresolved placeholder: ");
            push_str(&mut out, display);
            push_str(&mut out, " (check `[events] socket` in your config)");
            assert(out@ =~= placeholder_message(display@));
            return Err(string_of(out.as_slice()));
        }
        i = i + 1;
    }
    proof {
        assert forall|j: int| 0 <= j && j + 1 < v@.len() implies !(v@[j] == '$' && #[trigger] v@[j + 1] == '{') by {
            assert(j < i);
        }
    }
    Ok(())
}

/// What a non-blocking send to a consumer's queue did.
#[derive(Clone, Copy, Debug, PartialEq, Eq, Structural)]
pub enum SendOutcome {
    Sent,
    Full,
    Disconnected,
}

/// Delivery bookkeeping of one consumer and the publisher-wide total.
#[derive(Clone, Copy, Debug, PartialEq, Eq, Structural)]
pub struct Delivery {
    /// Lines lost since the last announced count.
    pub drops: u64,
    /// The consumer has gone away.
    pub dead: bool,
    /// Lines lost across all consumers.
    pub total_drops: u64,
}

/// Whether a `_meta` record is due before the next line.
pub fn meta_due(d: Delivery) -> (r: bool)
    ensures
        r == (d.drops > 0),
{
    d.drops > 0
}

/// After trying to send the `_meta` record: the count is cleared only
/// when it went out; otherwise it is kept for the next publish.
pub fn after_meta(d: Delivery, outcome: SendOutcome) -> (r: Delivery)
    ensures
        r == (if outcome == SendOutcome::Sent {
            Delivery { drops: 0, ..d }
        } else {
            d
        }),
{
    match outcome {
        SendOutcome::Sent => Delivery { drops: 0, ..d },
        _ => d,
    }
}

/// After trying to send one line: a full queue loses it (counted per
/// consumer and overall, wrapping like an atomic counter); a gone
/// consumer is marked dead and the remaining lines are skipped. Returns
/// whether to go on with the next line.
pub fn after_line(d: Delivery, outcome: SendOutcome) -> (r: (Delivery, bool))
    ensures
        r == (match outcome {
            SendOutcome::Sent => (d, true),
            SendOutcome::Full => (
                Delivery {
                    drops: vstd::wrapping::u64_specs::wrapping_add(d.drops, 1),
                    total_drops: vstd::wrapping::u64_specs::wrapping_add(d.total_drops, 1),
                    ..d
                },
                true,
            ),
            SendOutcome::Disconnected => (Delivery { dead: true, ..d }, false),
        }),
{
    match outcome {
        SendOutcome::Sent => (d, true),
        SendOutcome::Full => (
            Delivery { drops: d.drops.wrapping_add(1), total_drops: d.total_drops.wrapping_add(1), ..d },
            true,
        ),
        SendOutcome::Disconnected => (Delivery { dead: true, ..d }, false),
    }
}

/// Number of consumers not marked dead.
pub open spec fn live_count(dead: Seq<bool>) -> nat
    decreases dead.len(),
{
    if dead.len() == 0 {
        0
    } else {
        live_count(dead.drop_last()) + if dead.last() {
            0nat
        } else {
            1nat
        }
    }
}

/// Number of connected consumers: 0 while disabled, else those not
/// marked dead.
pub fn conn_count(enabled: bool, dead: &Vec<bool>) -> (r: usize)
    ensures
        r == (if enabled {
            live_count(dead@)
        } else {
            0
        }),
{
    if !enabled {
        return 0;
    }
    let mut n: usize = 0;
    let mut i: usize = 0;
    assert(dead@.subrange(0, 0) =~= Seq::<bool>::empty());
    while i < dead.len()
        invariant
            i <= dead.len(),
            n <= i,
            n == live_count(dead@.subrange(0, i as int)),
        decreases dead.len() - i,
    {
        assert(dead@.subrange(0, i + 1).drop_last() =~= dead@.subrange(0, i as int));
        if !dead[i] {
            n = n + 1;
        }
        i = i + 1;
    }
    assert(dead@.subrange(0, dead.len() as int) =~= dead@);
    n
}

} // verus!
