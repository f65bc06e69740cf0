//! The event detector: what changed between two snapshots that is worth
//! telling a consumer about.
//!
//! [`diff`] compares the previous and the next [`Snapshot`], updates the
//! latches of [`EventDifferState`] and returns the events in order:
//! session lifecycle and status changes, context-threshold crossings,
//! token-rate spike, host load, per-session activity, and — only when
//! the slow collector branch ran — rate limits, orphan ports and MCP
//! servers.
//!
//! Threshold comparisons on measured percentages and rates are made by
//! the collector; a snapshot carries, for each hysteresis latch, whether
//! the value is at or above the fire threshold and whether it is below
//! the clear threshold ([`LatchReading`]). Every latch fires once when it
//! is reached while disarmed and re-arms only after dropping below its
//! clear threshold.
use vstd::prelude::*;
use crate::events::{AppEvent, EventModel};
use crate::text::{lex_lt, sorted_listing, str_lt};

verus! {

/// Context buckets, in the order they are checked: 70, 90 and 95 percent
/// (fire at the bucket, clear below 65, 85 and 90 percent).
pub open spec fn bucket_value(b: int) -> u8 {
    if b == 0 {
        70
    } else if b == 1 {
        90
    } else {
        95
    }
}

/// Where a measured value stands against one latch's two thresholds.
#[derive(Clone, Copy, Debug, PartialEq, Eq)]
pub struct LatchReading {
    /// The value is at or above the fire threshold.
    pub at_or_above_fire: bool,
    /// The value is below the clear threshold.
    pub below_clear: bool,
}

/// The three context-bucket readings of one session.
#[derive(Clone, Copy, Debug, PartialEq, Eq)]
pub struct ContextReadings {
    pub b70: LatchReading,
    pub b90: LatchReading,
    pub b95: LatchReading,
}

pub open spec fn reading_of(c: ContextReadings, b: int) -> LatchReading {
    if b == 0 {
        c.b70
    } else if b == 1 {
        c.b90
    } else {
        c.b95
    }
}

/// One entry of a session's tool-call tail.
#[derive(Clone, Debug, PartialEq, Eq)]
pub struct ToolCallView {
    pub name: String,
    pub arg: String,
}

/// The part of a session that the detector reads.
#[derive(Clone, Debug)]
pub struct SessionView {
    pub agent_cli: String,
    pub pid: u32,
    pub session_id: String,
    /// Status name, as it appears on the wire.
    pub status: String,
    pub context: ContextReadings,
    pub compaction_count: u32,
    pub tool_calls: Vec<ToolCallView>,
    /// Names of the session's subagents.
    pub subagents: Vec<String>,
}

/// One rate-limit provider; `limited` is true when either window is at or
/// above the limited percentage.
#[derive(Clone, Debug)]
pub struct RateLimitView {
    pub source: String,
    pub limited: bool,
    /// Reset time of the five-hour window, in seconds.
    pub five_hour_resets_at: Option<u64>,
    /// Reset time of the seven-day window, in seconds.
    pub seven_day_resets_at: Option<u64>,
}

#[derive(Clone, Copy, Debug, PartialEq, Eq)]
pub struct OrphanPortView {
    pub port: u16,
    pub pid: u32,
}

#[derive(Clone, Debug)]
pub struct McpServerView {
    pub pid: u32,
    pub parent_cli: String,
}

/// Host 1-minute load: its `f64` bits and its reading against the
/// high-load latch (fire at 4.0, clear below 3.0).
#[derive(Clone, Copy, Debug, PartialEq, Eq)]
pub struct HostReading {
    pub load1: u64,
    pub latch: LatchReading,
}

/// The part of a snapshot that the detector reads.
#[derive(Clone, Debug)]
pub struct Snapshot {
    pub sessions: Vec<SessionView>,
    pub rate_limits: Vec<RateLimitView>,
    pub orphan_ports: Vec<OrphanPortView>,
    pub mcp_servers: Vec<McpServerView>,
    pub host: Option<HostReading>,
}

/// The token-rate measurement of this tick against the rolling baseline
/// held in [`EventDifferState`]: `rate` and `baseline` are `f64` bits,
/// `baseline` is the baseline in force before this tick (the rate itself
/// on the first tick), `next_baseline` the updated moving average, and
/// `latch` the reading of `rate / baseline` against the spike latch
/// (fire at 3×, clear below 1.5×), meaningful when `baseline_positive`.
#[derive(Clone, Copy, Debug, PartialEq, Eq)]
pub struct TokenReading {
    pub rate: u64,
    pub baseline: u64,
    pub next_baseline: u64,
    pub baseline_positive: bool,
    pub latch: LatchReading,
}

/// Per-session latches of the three context buckets; `None` means the
/// bucket has never been evaluated to a decision for that session.
#[derive(Clone, Copy, Debug, PartialEq, Eq)]
pub struct BucketLatches {
    pub b70: Option<bool>,
    pub b90: Option<bool>,
    pub b95: Option<bool>,
}

pub open spec fn latch_of(l: BucketLatches, b: int) -> Option<bool> {
    if b == 0 {
        l.b70
    } else if b == 1 {
        l.b90
    } else {
        l.b95
    }
}

pub open spec fn with_latch(l: BucketLatches, b: int, v: bool) -> BucketLatches {
    if b == 0 {
        BucketLatches { b70: Some(v), ..l }
    } else if b == 1 {
        BucketLatches { b90: Some(v), ..l }
    } else {
        BucketLatches { b95: Some(v), ..l }
    }
}

pub open spec fn no_latches() -> BucketLatches {
    BucketLatches { b70: None, b90: None, b95: None }
}

/// Detector state kept between ticks.
#[derive(Clone, Debug)]
pub struct EventDifferState {
    context_bucket_armed: Vec<(String, BucketLatches)>,
    rate_limit_armed: Vec<(String, bool)>,
    token_spike_armed: bool,
    token_rate_baseline: Option<u64>,
    host_load_armed: bool,
    tool_call_tail_len: Vec<(String, usize)>,
    compaction_seen: Vec<(String, u32)>,
    subagents_seen: Vec<(String, Vec<String>)>,
}

/// Mathematical form of [`EventDifferState`].
pub struct DifferModel {
    /// Per-session context-bucket latches.
    pub context: Map<Seq<char>, BucketLatches>,
    /// Per-provider quota latch: true while `RateLimited` was the last
    /// event emitted for the provider.
    pub rate_limit: Map<Seq<char>, bool>,
    pub token_spike_armed: bool,
    /// Rolling token-rate baseline (`f64` bits).
    pub token_rate_baseline: Option<u64>,
    pub host_load_armed: bool,
    /// Last seen tool-call tail length per session.
    pub tool_tail_len: Map<Seq<char>, usize>,
    /// Last seen compaction count per session.
    pub compaction_seen: Map<Seq<char>, u32>,
    /// Subagent names already reported per session.
    pub subagents_seen: Map<Seq<char>, Set<Seq<char>>>,
}

pub open spec fn names_set(v: Seq<String>) -> Set<Seq<char>> {
    v.map_values(|s: String| s@).to_set()
}

impl View for EventDifferState {
    type V = DifferModel;

    closed spec fn view(&self) -> DifferModel {
        DifferModel {
            context: crate::keyed::as_map(self.context_bucket_armed@),
            rate_limit: crate::keyed::as_map(self.rate_limit_armed@),
            token_spike_armed: self.token_spike_armed,
            token_rate_baseline: self.token_rate_baseline,
            host_load_armed: self.host_load_armed,
            tool_tail_len: crate::keyed::as_map(self.tool_call_tail_len@),
            compaction_seen: crate::keyed::as_map(self.compaction_seen@),
            subagents_seen: crate::keyed::as_map(self.subagents_seen@).map_values(|v: Vec<String>| names_set(v@)),
        }
    }
}

// ---------------------------------------------------------------------
// Session lifecycle and status
// ---------------------------------------------------------------------

/// The last view in `s` carrying `id` (the one a by-id table keeps).
pub open spec fn last_view(s: Seq<SessionView>, id: Seq<char>) -> Option<SessionView>
    decreases s.len(),
{
    if s.len() == 0 {
        None
    } else if s.last().session_id@ == id {
        Some(s.last())
    } else {
        last_view(s.drop_last(), id)
    }
}

/// Entry `i` is the first one carrying its session id.
pub open spec fn first_occurrence(s: Seq<SessionView>, i: int) -> bool {
    forall|j: int| 0 <= j < i ==> (#[trigger] s[j]).session_id@ != s[i].session_id@
}

/// `SessionStarted` for each distinct id of `next[..n]` absent from `prev`.
pub open spec fn started_upto(prev: Seq<SessionView>, next: Seq<SessionView>, n: int) -> Seq<EventModel>
    decreases n,
{
    if n <= 0 {
        seq![]
    } else {
        let id = next[n - 1].session_id@;
        let v = last_view(next, id)->0;
        started_upto(prev, next, n - 1) + if first_occurrence(next, n - 1) && last_view(prev, id) is None {
            seq![EventModel::SessionStarted { session_id: id, agent_cli: v.agent_cli@, pid: v.pid }]
        } else {
            seq![]
        }
    }
}

/// `SessionEnded` for each distinct id of `prev[..n]` absent from `next`.
pub open spec fn ended_upto(prev: Seq<SessionView>, next: Seq<SessionView>, n: int) -> Seq<EventModel>
    decreases n,
{
    if n <= 0 {
        seq![]
    } else {
        let id = prev[n - 1].session_id@;
        ended_upto(prev, next, n - 1) + if first_occurrence(prev, n - 1) && last_view(next, id) is None {
            seq![EventModel::SessionEnded { session_id: id }]
        } else {
            seq![]
        }
    }
}

/// `StatusChanged` for each distinct id of `next[..n]` present in `prev`
/// with a different status.
pub open spec fn status_upto(prev: Seq<SessionView>, next: Seq<SessionView>, n: int) -> Seq<EventModel>
    decreases n,
{
    if n <= 0 {
        seq![]
    } else {
        let id = next[n - 1].session_id@;
        let nv = last_view(next, id)->0;
        let pv = last_view(prev, id)->0;
        status_upto(prev, next, n - 1) + if first_occurrence(next, n - 1) && last_view(prev, id) is Some
            && pv.status@ != nv.status@ {
            seq![EventModel::StatusChanged { session_id: id, from: pv.status@, to: nv.status@ }]
        } else {
            seq![]
        }
    }
}

/// Ids present in `prev` and absent from `next`.
pub open spec fn ended_ids(prev: Seq<SessionView>, next: Seq<SessionView>) -> Set<Seq<char>> {
    Set::new(|id: Seq<char>| last_view(prev, id) is Some && last_view(next, id) is None)
}

/// Lifecycle and status events, in order: started, ended, status changes.
pub open spec fn session_events(prev: Seq<SessionView>, next: Seq<SessionView>) -> Seq<EventModel> {
    started_upto(prev, next, next.len() as int) + ended_upto(prev, next, prev.len() as int)
        + status_upto(prev, next, next.len() as int)
}

/// The state after the lifecycle phase: everything the detector tracks
/// for an ended session is forgotten.
pub open spec fn purge_ended(m: DifferModel, gone: Set<Seq<char>>) -> DifferModel {
    DifferModel {
        context: m.context.remove_keys(gone),
        tool_tail_len: m.tool_tail_len.remove_keys(gone),
        compaction_seen: m.compaction_seen.remove_keys(gone),
        subagents_seen: m.subagents_seen.remove_keys(gone),
        ..m
    }
}

proof fn lemma_last_view_prefix(s: Seq<SessionView>, i: int, id: Seq<char>)
    requires
        0 <= i <= s.len(),
        forall|j: int| i <= j < s.len() ==> (#[trigger] s[j]).session_id@ != id,
    ensures
        last_view(s, id) == last_view(s.subrange(0, i), id),
    decreases s.len() - i,
{
    if i < s.len() {
        assert(s.drop_last().subrange(0, i) =~= s.subrange(0, i));
        lemma_last_view_prefix(s.drop_last(), i, id);
    } else {
        assert(s.subrange(0, i) =~= s);
    }
}

/// Index of the last session carrying `id`.
fn find_session(s: &Vec<SessionView>, id: &String) -> (r: Option<usize>)
    ensures
        match r {
            Some(i) => i < s.len() && s@[i as int].session_id@ == id@ && last_view(s@, id@) == Some(
                s@[i as int],
            ),
            None => last_view(s@, id@) is None,
        },
{
    let mut i = s.len();
    while i > 0
        invariant
            i <= s.len(),
            forall|j: int| i <= j < s.len() ==> (#[trigger] s@[j]).session_id@ != id@,
        decreases i,
    {
        if s[i - 1].session_id == *id {
            proof {
                lemma_last_view_prefix(s@, i as int, id@);
                assert(s@.subrange(0, i as int).drop_last() =~= s@.subrange(0, i - 1));
            }
            return Some(i - 1);
        }
        i = i - 1;
    }
    proof {
        lemma_last_view_prefix(s@, 0, id@);
    }
    None
}

/// Whether `s[i]` is the first entry carrying its id.
fn is_first_occurrence(s: &Vec<SessionView>, i: usize) -> (r: bool)
    requires
        i < s.len(),
    ensures
        r == first_occurrence(s@, i as int),
{
    let mut j: usize = 0;
    while j < i
        invariant
            i < s.len(),
            j <= i,
            forall|k: int| 0 <= k < j ==> (#[trigger] s@[k]).session_id@ != s@[i as int].session_id@,
        decreases i - j,
    {
        if s[j].session_id == s[i].session_id {
            return false;
        }
        j = j + 1;
    }
    true
}


pub open spec fn models(v: Seq<AppEvent>) -> Seq<EventModel> {
    v.map_values(|e: AppEvent| e@)
}

proof fn lemma_models_push(v: Seq<AppEvent>, e: AppEvent)
    ensures
        models(v.push(e)) == models(v).push(e@),
{
    assert(models(v.push(e)) =~= models(v).push(e@));
}

proof fn lemma_last_view_some(s: Seq<SessionView>, i: int)
    requires
        0 <= i < s.len(),
    ensures
        last_view(s, s[i].session_id@) is Some,
    decreases s.len(),
{
    if i < s.len() - 1 && s.last().session_id@ != s[i].session_id@ {
        assert(s.drop_last()[i] == s[i]);
        lemma_last_view_some(s.drop_last(), i);
    }
}

proof fn lemma_last_view_none(s: Seq<SessionView>, id: Seq<char>, i: int)
    requires
        last_view(s, id) is None,
        0 <= i < s.len(),
    ensures
        s[i].session_id@ != id,
{
    if s[i].session_id@ == id {
        lemma_last_view_some(s, i);
    }
}

/// Ids of `prev[..n]` that are absent from `next`.
pub open spec fn ended_prefix(prev: Seq<SessionView>, next: Seq<SessionView>, n: int) -> Set<Seq<char>> {
    Set::new(|id: Seq<char>| (exists|j: int| 0 <= j < n && (#[trigger] prev[j]).session_id@ == id) && last_view(next, id) is None)
}

proof fn lemma_ended_prefix_full(prev: Seq<SessionView>, next: Seq<SessionView>)
    ensures
        ended_prefix(prev, next, prev.len() as int) == ended_ids(prev, next),
{
    assert forall|id: Seq<char>| ended_prefix(prev, next, prev.len() as int).contains(id) <==> ended_ids(prev, next).contains(id) by {
        if ended_prefix(prev, next, prev.len() as int).contains(id) {
            let j = choose|j: int| 0 <= j < prev.len() && (#[trigger] prev[j]).session_id@ == id;
            lemma_last_view_some(prev, j);
        }
        if ended_ids(prev, next).contains(id) {
            lemma_last_view_some_has_index(prev, id);
        }
    }
    assert(ended_prefix(prev, next, prev.len() as int) =~= ended_ids(prev, next));
}

proof fn lemma_last_view_some_has_index(s: Seq<SessionView>, id: Seq<char>)
    requires
        last_view(s, id) is Some,
    ensures
        exists|j: int| 0 <= j < s.len() && (#[trigger] s[j]).session_id@ == id,
    decreases s.len(),
{
    if s.last().session_id@ == id {
        assert(s[s.len() - 1].session_id@ == id);
    } else {
        lemma_last_view_some_has_index(s.drop_last(), id);
        let j = choose|j: int| 0 <= j < s.drop_last().len() && (#[trigger] s.drop_last()[j]).session_id@ == id;
        assert(s[j] == s.drop_last()[j]);
    }
}

impl EventDifferState {
    /// A detector with every latch disarmed and nothing tracked.
    pub fn new() -> (r: Self)
        ensures
            r@.context == Map::<Seq<char>, BucketLatches>::empty(),
            r@.rate_limit == Map::<Seq<char>, bool>::empty(),
            !r@.token_spike_armed,
            r@.token_rate_baseline is None,
            !r@.host_load_armed,
            r@.tool_tail_len == Map::<Seq<char>, usize>::empty(),
            r@.compaction_seen == Map::<Seq<char>, u32>::empty(),
            r@.subagents_seen == Map::<Seq<char>, Set<Seq<char>>>::empty(),
    {
        let r = EventDifferState {
            context_bucket_armed: Vec::new(),
            rate_limit_armed: Vec::new(),
            token_spike_armed: false,
            token_rate_baseline: None,
            host_load_armed: false,
            tool_call_tail_len: Vec::new(),
            compaction_seen: Vec::new(),
            subagents_seen: Vec::new(),
        };
        proof {
            assert(crate::keyed::as_map(r.context_bucket_armed@) =~= Map::<Seq<char>, BucketLatches>::empty());
            assert(crate::keyed::as_map(r.rate_limit_armed@) =~= Map::<Seq<char>, bool>::empty());
            assert(crate::keyed::as_map(r.tool_call_tail_len@) =~= Map::<Seq<char>, usize>::empty());
            assert(crate::keyed::as_map(r.compaction_seen@) =~= Map::<Seq<char>, u32>::empty());
            assert(crate::keyed::as_map(r.subagents_seen@).map_values(|v: Vec<String>| names_set(v@)) =~= Map::<Seq<char>, Set<Seq<char>>>::empty());
        }
        r
    }

    /// Forgets everything tracked for session `id`.
    fn forget_session(&mut self, id: &String)
        ensures
            final(self)@ == purge_ended(old(self)@, set![id@]),
    {
        crate::keyed::remove_key(&mut self.context_bucket_armed, id);
        crate::keyed::remove_key(&mut self.tool_call_tail_len, id);
        crate::keyed::remove_key(&mut self.compaction_seen, id);
        let ghost sub0 = crate::keyed::as_map(self.subagents_seen@);
        crate::keyed::remove_key(&mut self.subagents_seen, id);
        proof {
            let m0 = old(self)@;
            let s = set![id@];
            assert(self@.context =~= m0.context.remove_keys(s));
            assert(self@.tool_tail_len =~= m0.tool_tail_len.remove_keys(s));
            assert(self@.compaction_seen =~= m0.compaction_seen.remove_keys(s));
            assert(self@.subagents_seen =~= m0.subagents_seen.remove_keys(s));
        }
    }

    fn diff_sessions(&mut self, prev: &Snapshot, next: &Snapshot, out: &mut Vec<AppEvent>)
        ensures
            models(final(out)@) == models(old(out)@) + session_events(prev.sessions@, next.sessions@),
            final(self)@ == purge_ended(old(self)@, ended_ids(prev.sessions@, next.sessions@)),
    {
        let ghost out0 = models(out@);
        let ghost m0 = self@;
        let ps = &prev.sessions;
        let ns = &next.sessions;
        // Started: in next, not in prev.
        let mut i: usize = 0;
        while i < ns.len()
            invariant
                i <= ns.len(),
                models(out@) == out0 + started_upto(ps@, ns@, i as int),
                self@ == m0,
            decreases ns.len() - i,
        {
            let first = is_first_occurrence(ns, i);
            let absent = find_session(ps, &ns[i].session_id).is_none();
            proof {
                lemma_last_view_some(ns@, i as int);
            }
            if first && absent {
                match find_session(ns, &ns[i].session_id) {
                    Some(k) => {
                        let ev = AppEvent::SessionStarted {
                            session_id: ns[i].session_id.clone(),
                            agent_cli: ns[k].agent_cli.clone(),
                            pid: ns[k].pid,
                        };
                        proof { lemma_models_push(out@, ev); }
                        out.push(ev);
                    },
                    None => {},
                }
            }
            proof {
                assert(models(out@) =~= out0 + started_upto(ps@, ns@, i + 1));
            }
            i = i + 1;
        }
        let ghost out1 = models(out@);
        proof {
            let e = ended_prefix(ps@, ns@, 0);
            assert(e =~= Set::empty());
            assert(m0.context.remove_keys(e) =~= m0.context);
            assert(m0.tool_tail_len.remove_keys(e) =~= m0.tool_tail_len);
            assert(m0.compaction_seen.remove_keys(e) =~= m0.compaction_seen);
            assert(m0.subagents_seen.remove_keys(e) =~= m0.subagents_seen);
        }
        // Ended: in prev, not in next; purge what is tracked for them.
        let mut i: usize = 0;
        while i < ps.len()
            invariant
                i <= ps.len(),
                models(out@) == out1 + ended_upto(ps@, ns@, i as int),
                self@ == purge_ended(m0, ended_prefix(ps@, ns@, i as int)),
            decreases ps.len() - i,
        {
            let first = is_first_occurrence(ps, i);
            let absent = find_session(ns, &ps[i].session_id).is_none();
            let ghost before = self@;
            let ghost id = ps@[i as int].session_id@;
            if absent {
                if first {
                    let ev = AppEvent::SessionEnded { session_id: ps[i].session_id.clone() };
                    proof { lemma_models_push(out@, ev); }
                    out.push(ev);
                }
                self.forget_session(&ps[i].session_id);
            }
            proof {
                assert(models(out@) =~= out1 + ended_upto(ps@, ns@, i + 1));
                let e0 = ended_prefix(ps@, ns@, i as int);
                let e1 = ended_prefix(ps@, ns@, i + 1);
                if absent {
                    assert(e1 =~= e0.union(set![id]));
                    assert(self@.context =~= m0.context.remove_keys(e1));
                    assert(self@.tool_tail_len =~= m0.tool_tail_len.remove_keys(e1));
                    assert(self@.compaction_seen =~= m0.compaction_seen.remove_keys(e1));
                    assert(self@.subagents_seen =~= m0.subagents_seen.remove_keys(e1));
                } else {
                    assert forall|x: Seq<char>| e1.contains(x) implies e0.contains(x) by {
                        let j = choose|j: int| 0 <= j < i + 1 && (#[trigger] ps@[j]).session_id@ == x;
                        if j == i {
                            lemma_last_view_some(ns@, 0);
                        }
                    }
                    assert(e1 =~= e0);
                }
            }
            i = i + 1;
        }
        proof {
            lemma_ended_prefix_full(ps@, ns@);
        }
        let ghost out2 = models(out@);
        // Status changed: in both, status differs.
        let mut i: usize = 0;
        while i < ns.len()
            invariant
                i <= ns.len(),
                models(out@) == out2 + status_upto(ps@, ns@, i as int),
            decreases ns.len() - i,
        {
            let first = is_first_occurrence(ns, i);
            proof {
                lemma_last_view_some(ns@, i as int);
            }
            if first {
                match find_session(ps, &ns[i].session_id) {
                    Some(p) => {
                        match find_session(ns, &ns[i].session_id) {
                            Some(k) => {
                                if ps[p].status != ns[k].status {
                                    let ev = AppEvent::StatusChanged {
                                        session_id: ns[i].session_id.clone(),
                                        from: ps[p].status.clone(),
                                        to: ns[k].status.clone(),
                                    };
                                    proof { lemma_models_push(out@, ev); }
                                    out.push(ev);
                                }
                            },
                            None => {},
                        }
                    },
                    None => {},
                }
            }
            proof {
                assert(models(out@) =~= out2 + status_upto(ps@, ns@, i + 1));
            }
            i = i + 1;
        }
        proof {
            assert(models(out@) =~= out0 + session_events(ps@, ns@));
        }
    }
}


// ---------------------------------------------------------------------
// Context thresholds, token rate, host load
// ---------------------------------------------------------------------

/// The latch of bucket `b` of session `id` is armed (has fired and not
/// cleared since).
pub open spec fn ctx_armed(m: Map<Seq<char>, BucketLatches>, id: Seq<char>, b: int) -> bool {
    match m.get(id) {
        Some(l) => latch_of(l, b) == Some(true),
        None => false,
    }
}

/// One context bucket of one session: fire when reached while disarmed,
/// disarm when below the clear threshold while armed.
pub open spec fn bucket_step(m: Map<Seq<char>, BucketLatches>, s: SessionView, b: int) -> (Map<Seq<char>, BucketLatches>, Seq<EventModel>) {
    let id = s.session_id@;
    let r = reading_of(s.context, b);
    let armed = ctx_armed(m, id, b);
    let cur = match m.get(id) {
        Some(l) => l,
        None => no_latches(),
    };
    if !armed && r.at_or_above_fire {
        (m.insert(id, with_latch(cur, b, true)), seq![EventModel::ContextThreshold { session_id: id, bucket: bucket_value(b) }])
    } else if armed && r.below_clear {
        (m.insert(id, with_latch(cur, b, false)), seq![])
    } else {
        (m, seq![])
    }
}

/// The three buckets of one session, in order 70, 90, 95.
pub open spec fn session_context_step(m: Map<Seq<char>, BucketLatches>, s: SessionView) -> (Map<Seq<char>, BucketLatches>, Seq<EventModel>) {
    let (m1, e1) = bucket_step(m, s, 0);
    let (m2, e2) = bucket_step(m1, s, 1);
    let (m3, e3) = bucket_step(m2, s, 2);
    (m3, e1 + e2 + e3)
}

/// Context phase over the sessions `s[..n]`, in order.
pub open spec fn context_upto(m: Map<Seq<char>, BucketLatches>, s: Seq<SessionView>, n: int) -> (Map<Seq<char>, BucketLatches>, Seq<EventModel>)
    decreases n,
{
    if n <= 0 {
        (m, seq![])
    } else {
        let (m1, e1) = context_upto(m, s, n - 1);
        let (m2, e2) = session_context_step(m1, s[n - 1]);
        (m2, e1 + e2)
    }
}

/// Token-rate phase: the baseline always moves to `next_baseline`; the
/// spike latch is evaluated only against a positive baseline.
pub open spec fn token_step(m: DifferModel, t: TokenReading) -> (DifferModel, Seq<EventModel>) {
    let m1 = DifferModel { token_rate_baseline: Some(t.next_baseline), ..m };
    if !t.baseline_positive {
        (m1, seq![])
    } else if !m.token_spike_armed && t.latch.at_or_above_fire {
        (DifferModel { token_spike_armed: true, ..m1 }, seq![EventModel::TokenRateSpike { rate: t.rate, baseline: t.baseline }])
    } else if m.token_spike_armed && t.latch.below_clear {
        (DifferModel { token_spike_armed: false, ..m1 }, seq![])
    } else {
        (m1, seq![])
    }
}

/// Host-load phase; nothing happens without a host reading.
pub open spec fn host_step(m: DifferModel, h: Option<HostReading>) -> (DifferModel, Seq<EventModel>) {
    match h {
        None => (m, seq![]),
        Some(h) => if !m.host_load_armed && h.latch.at_or_above_fire {
            (DifferModel { host_load_armed: true, ..m }, seq![EventModel::HostLoadHigh { load1: h.load1 }])
        } else if m.host_load_armed && h.latch.below_clear {
            (DifferModel { host_load_armed: false, ..m }, seq![])
        } else {
            (m, seq![])
        },
    }
}

impl EventDifferState {
    fn context_bucket(&mut self, s: &SessionView, b: usize, out: &mut Vec<AppEvent>)
        requires
            b < 3,
        ensures
            ({
                let (m, e) = bucket_step(old(self)@.context, *s, b as int);
                &&& final(self)@ == DifferModel { context: m, ..old(self)@ }
                &&& models(final(out)@) == models(old(out)@) + e
            }),
    {
        let cur = crate::keyed::get_copy(&self.context_bucket_armed, &s.session_id);
        let latches = match cur {
            Some(l) => l,
            None => BucketLatches { b70: None, b90: None, b95: None },
        };
        let slot = if b == 0 {
            latches.b70
        } else if b == 1 {
            latches.b90
        } else {
            latches.b95
        };
        let armed = match slot {
            Some(x) => x,
            None => false,
        };
        let r = if b == 0 {
            s.context.b70
        } else if b == 1 {
            s.context.b90
        } else {
            s.context.b95
        };
        let bucket: u8 = if b == 0 {
            70
        } else if b == 1 {
            90
        } else {
            95
        };
        let ghost m0 = self@;
        if !armed && r.at_or_above_fire {
            let ev = AppEvent::ContextThreshold { session_id: s.session_id.clone(), bucket };
            proof { lemma_models_push(out@, ev); }
            out.push(ev);
            let nl = if b == 0 {
                BucketLatches { b70: Some(true), ..latches }
            } else if b == 1 {
                BucketLatches { b90: Some(true), ..latches }
            } else {
                BucketLatches { b95: Some(true), ..latches }
            };
            crate::keyed::insert(&mut self.context_bucket_armed, s.session_id.clone(), nl);
            proof {
                assert(models(out@) =~= models(old(out)@) + seq![EventModel::ContextThreshold { session_id: s.session_id@, bucket: bucket_value(b as int) }]);
            }
        } else if armed && r.below_clear {
            let nl = if b == 0 {
                BucketLatches { b70: Some(false), ..latches }
            } else if b == 1 {
                BucketLatches { b90: Some(false), ..latches }
            } else {
                BucketLatches { b95: Some(false), ..latches }
            };
            crate::keyed::insert(&mut self.context_bucket_armed, s.session_id.clone(), nl);
            assert(models(out@) =~= models(old(out)@) + seq![]);
        } else {
            assert(models(out@) =~= models(old(out)@) + seq![]);
        }
    }

    fn diff_context_thresholds(&mut self, next: &Snapshot, out: &mut Vec<AppEvent>)
        ensures
            ({
                let (m, e) = context_upto(old(self)@.context, next.sessions@, next.sessions@.len() as int);
                &&& final(self)@ == DifferModel { context: m, ..old(self)@ }
                &&& models(final(out)@) == models(old(out)@) + e
            }),
    {
        let ghost m0 = self@;
        let ghost out0 = models(out@);
        let ns = &next.sessions;
        let mut i: usize = 0;
        while i < ns.len()
            invariant
                i <= ns.len(),
                ({
                    let (m, e) = context_upto(m0.context, ns@, i as int);
                    &&& self@ == DifferModel { context: m, ..m0 }
                    &&& models(out@) == out0 + e
                }),
            decreases ns.len() - i,
        {
            self.context_bucket(&ns[i], 0, out);
            self.context_bucket(&ns[i], 1, out);
            self.context_bucket(&ns[i], 2, out);
            proof {
                let (m, e) = context_upto(m0.context, ns@, i + 1);
                assert(models(out@) =~= out0 + e);
            }
            i = i + 1;
        }
    }

    fn diff_token_rate(&mut self, token: &TokenReading, out: &mut Vec<AppEvent>)
        ensures
            ({
                let (m, e) = token_step(old(self)@, *token);
                &&& final(self)@ == m
                &&& models(final(out)@) == models(old(out)@) + e
            }),
    {
        let was = self.token_spike_armed;
        self.token_rate_baseline = Some(token.next_baseline);
        if !token.baseline_positive {
            assert(models(out@) =~= models(old(out)@) + seq![]);
            return;
        }
        if !was && token.latch.at_or_above_fire {
            let ev = AppEvent::TokenRateSpike { rate: token.rate, baseline: token.baseline };
            proof { lemma_models_push(out@, ev); }
            out.push(ev);
            self.token_spike_armed = true;
        } else if was && token.latch.below_clear {
            self.token_spike_armed = false;
            assert(models(out@) =~= models(old(out)@) + seq![]);
        } else {
            assert(models(out@) =~= models(old(out)@) + seq![]);
        }
    }

    fn diff_host_load(&mut self, next: &Snapshot, out: &mut Vec<AppEvent>)
        ensures
            ({
                let (m, e) = host_step(old(self)@, next.host);
                &&& final(self)@ == m
                &&& models(final(out)@) == models(old(out)@) + e
            }),
    {
        match next.host {
            None => {
                assert(models(out@) =~= models(old(out)@) + seq![]);
            },
            Some(h) => {
                if !self.host_load_armed && h.latch.at_or_above_fire {
                    let ev = AppEvent::HostLoadHigh { load1: h.load1 };
                    proof { lemma_models_push(out@, ev); }
                    out.push(ev);
                    self.host_load_armed = true;
                } else if self.host_load_armed && h.latch.below_clear {
                    self.host_load_armed = false;
                    assert(models(out@) =~= models(old(out)@) + seq![]);
                } else {
                    assert(models(out@) =~= models(old(out)@) + seq![]);
                }
            },
        }
    }
}


// ---------------------------------------------------------------------
// Per-session activity: tool calls, compactions, subagents
// ---------------------------------------------------------------------

/// One `ToolCalled` per tail item beyond the last seen length.
pub open spec fn tool_events(s: SessionView, seen_len: int) -> Seq<EventModel> {
    let cur = s.tool_calls@.len() as int;
    if cur > seen_len {
        Seq::new((cur - seen_len) as nat, |k: int| EventModel::ToolCalled {
            session_id: s.session_id@,
            tool: s.tool_calls@[seen_len + k].name@,
            arg: s.tool_calls@[seen_len + k].arg@,
        })
    } else {
        seq![]
    }
}

/// One `CompactionDetected` per increment of the compaction count.
pub open spec fn compaction_events(id: Seq<char>, cur: u32, seen: u32) -> Seq<EventModel> {
    if cur > seen {
        Seq::new((cur - seen) as nat, |k: int| EventModel::CompactionDetected { session_id: id })
    } else {
        seq![]
    }
}

/// Subagents of `names[..n]` not reported before, each once.
pub open spec fn subagents_upto(seen: Set<Seq<char>>, id: Seq<char>, names: Seq<String>, n: int) -> (Set<Seq<char>>, Seq<EventModel>)
    decreases n,
{
    if n <= 0 {
        (seen, seq![])
    } else {
        let (s1, e1) = subagents_upto(seen, id, names, n - 1);
        let nm = names[n - 1]@;
        if s1.contains(nm) {
            (s1, e1)
        } else {
            (s1.insert(nm), e1.push(EventModel::SubagentSpawned { session_id: id, name: nm }))
        }
    }
}

/// Activity of one session; the tail length, the compaction count and
/// the reported subagents are recorded for the session.
pub open spec fn activity_step(m: DifferModel, s: SessionView) -> (DifferModel, Seq<EventModel>) {
    let id = s.session_id@;
    let cur = s.tool_calls@.len();
    let seen_len: int = match m.tool_tail_len.get(id) {
        Some(x) => x as int,
        None => 0,
    };
    let cc = s.compaction_count;
    let pc = match m.compaction_seen.get(id) {
        Some(x) => x,
        None => cc,
    };
    let seen0 = match m.subagents_seen.get(id) {
        Some(x) => x,
        None => Set::empty(),
    };
    let (seen1, e3) = subagents_upto(seen0, id, s.subagents@, s.subagents@.len() as int);
    (
        DifferModel {
            tool_tail_len: m.tool_tail_len.insert(id, cur as usize),
            compaction_seen: m.compaction_seen.insert(id, cc),
            subagents_seen: m.subagents_seen.insert(id, seen1),
            ..m
        },
        tool_events(s, seen_len) + compaction_events(id, cc, pc) + e3,
    )
}

/// Activity phase over the sessions `s[..n]`, in order.
pub open spec fn activity_upto(m: DifferModel, s: Seq<SessionView>, n: int) -> (DifferModel, Seq<EventModel>)
    decreases n,
{
    if n <= 0 {
        (m, seq![])
    } else {
        let (m1, e1) = activity_upto(m, s, n - 1);
        let (m2, e2) = activity_step(m1, s[n - 1]);
        (m2, e1 + e2)
    }
}

proof fn lemma_names_set_push(v: Seq<String>, x: String)
    ensures
        names_set(v.push(x)) == names_set(v).insert(x@),
{
    let f = |s: String| s@;
    assert(v.push(x).map_values(f) =~= v.map_values(f).push(x@));
    let a = v.map_values(f);
    assert forall|y: Seq<char>| names_set(v.push(x)).contains(y) <==> names_set(v).insert(x@).contains(y) by {
        if a.push(x@).contains(y) {
            let j = choose|j: int| 0 <= j < a.push(x@).len() && a.push(x@)[j] == y;
            if j < a.len() {
                assert(a[j] == y);
            }
        }
        if a.contains(y) {
            let j = choose|j: int| 0 <= j < a.len() && a[j] == y;
            assert(a.push(x@)[j] == y);
        }
        if y == x@ {
            assert(a.push(x@)[a.len() as int] == y);
        }
    }
    assert(names_set(v.push(x)) =~= names_set(v).insert(x@));
}

/// Whether `name` is among `v`.
fn names_contain(v: &Vec<String>, name: &String) -> (r: bool)
    ensures
        r == names_set(v@).contains(name@),
{
    let mut i: usize = 0;
    while i < v.len()
        invariant
            i <= v.len(),
            forall|j: int| 0 <= j < i ==> (#[trigger] v@[j])@ != name@,
        decreases v.len() - i,
    {
        if v[i] == *name {
            proof {
                assert(v@.map_values(|s: String| s@)[i as int] == name@);
            }
            return true;
        }
        i = i + 1;
    }
    proof {
        if names_set(v@).contains(name@) {
            let a = v@.map_values(|s: String| s@);
            let j = choose|j: int| 0 <= j < a.len() && a[j] == name@;
            assert(v@[j]@ == name@);
        }
    }
    false
}

impl EventDifferState {
    fn activity_session(&mut self, s: &SessionView, out: &mut Vec<AppEvent>)
        ensures
            ({
                let (m, e) = activity_step(old(self)@, *s);
                &&& final(self)@ == m
                &&& models(final(out)@) == models(old(out)@) + e
            }),
    {
        let ghost m0 = self@;
        let ghost out0 = models(out@);
        let ghost id = s.session_id@;
        // Tool calls.
        let cur_len = s.tool_calls.len();
        let prev_len = match crate::keyed::get_copy(&self.tool_call_tail_len, &s.session_id) {
            Some(x) => x,
            None => 0,
        };
        if cur_len > prev_len {
            let mut k = prev_len;
            while k < cur_len
                invariant
                    prev_len <= k <= cur_len,
                    cur_len == s.tool_calls@.len(),
                    models(out@) == out0 + Seq::new((k - prev_len) as nat, |j: int| EventModel::ToolCalled {
                        session_id: s.session_id@,
                        tool: s.tool_calls@[prev_len + j].name@,
                        arg: s.tool_calls@[prev_len + j].arg@,
                    }),
                decreases cur_len - k,
            {
                let ev = AppEvent::ToolCalled {
                    session_id: s.session_id.clone(),
                    tool: s.tool_calls[k].name.clone(),
                    arg: s.tool_calls[k].arg.clone(),
                };
                proof { lemma_models_push(out@, ev); }
                out.push(ev);
                proof {
                    assert(models(out@) =~= out0 + Seq::new((k + 1 - prev_len) as nat, |j: int| EventModel::ToolCalled {
                        session_id: s.session_id@,
                        tool: s.tool_calls@[prev_len + j].name@,
                        arg: s.tool_calls@[prev_len + j].arg@,
                    }));
                }
                k = k + 1;
            }
        } else {
            assert(models(out@) =~= out0 + seq![]);
        }
        crate::keyed::insert(&mut self.tool_call_tail_len, s.session_id.clone(), cur_len);
        let ghost out1 = models(out@);
        // Compactions.
        let cur_c = s.compaction_count;
        let prev_c = match crate::keyed::get_copy(&self.compaction_seen, &s.session_id) {
            Some(x) => x,
            None => cur_c,
        };
        if cur_c > prev_c {
            let mut k = prev_c;
            while k < cur_c
                invariant
                    prev_c <= k <= cur_c,
                    id == s.session_id@,
                    models(out@) == out1 + Seq::new((k - prev_c) as nat, |j: int| EventModel::CompactionDetected { session_id: id }),
                decreases cur_c - k,
            {
                let ev = AppEvent::CompactionDetected { session_id: s.session_id.clone() };
                proof { lemma_models_push(out@, ev); }
                out.push(ev);
                proof {
                    assert(models(out@) =~= out1 + Seq::new((k + 1 - prev_c) as nat, |j: int| EventModel::CompactionDetected { session_id: id }));
                }
                k = k + 1;
            }
        } else {
            assert(models(out@) =~= out1 + seq![]);
        }
        crate::keyed::insert(&mut self.compaction_seen, s.session_id.clone(), cur_c);
        let ghost out2 = models(out@);
        // Subagents.
        let ghost sub_before = self@.subagents_seen;
        let mut seen: Vec<String> = match crate::keyed::take(&mut self.subagents_seen, &s.session_id) {
            Some(v) => v,
            None => Vec::new(),
        };
        let ghost seen0 = match sub_before.get(id) {
            Some(x) => x,
            None => Set::<Seq<char>>::empty(),
        };
        proof {
            if sub_before.get(id) is None {
                assert(names_set(seen@) =~= Set::<Seq<char>>::empty());
            }
        }
        let mut i: usize = 0;
        while i < s.subagents.len()
            invariant
                i <= s.subagents@.len(),
                id == s.session_id@,
                ({
                    let (st, e) = subagents_upto(seen0, id, s.subagents@, i as int);
                    &&& names_set(seen@) == st
                    &&& models(out@) == out2 + e
                }),
            decreases s.subagents@.len() - i,
        {
            if !names_contain(&seen, &s.subagents[i]) {
                let ev = AppEvent::SubagentSpawned { session_id: s.session_id.clone(), name: s.subagents[i].clone() };
                proof { lemma_models_push(out@, ev); }
                out.push(ev);
                proof { lemma_names_set_push(seen@, s.subagents@[i as int]); }
                seen.push(s.subagents[i].clone());
            }
            proof {
                let (st, e) = subagents_upto(seen0, id, s.subagents@, i + 1);
                assert(models(out@) =~= out2 + e);
            }
            i = i + 1;
        }
        let ghost seen_final = seen@;
        crate::keyed::insert(&mut self.subagents_seen, s.session_id.clone(), seen);
        proof {
            let (m, e) = activity_step(m0, *s);
            assert(self@.subagents_seen =~= m.subagents_seen);
            assert(self@.tool_tail_len =~= m.tool_tail_len);
            assert(self@.compaction_seen =~= m.compaction_seen);
            assert(models(out@) =~= out0 + e);
        }
    }

    fn diff_activity(&mut self, next: &Snapshot, out: &mut Vec<AppEvent>)
        ensures
            ({
                let (m, e) = activity_upto(old(self)@, next.sessions@, next.sessions@.len() as int);
                &&& final(self)@ == m
                &&& models(final(out)@) == models(old(out)@) + e
            }),
    {
        let ghost m0 = self@;
        let ghost out0 = models(out@);
        let ns = &next.sessions;
        let mut i: usize = 0;
        while i < ns.len()
            invariant
                i <= ns.len(),
                ({
                    let (m, e) = activity_upto(m0, ns@, i as int);
                    &&& self@ == m
                    &&& models(out@) == out0 + e
                }),
            decreases ns.len() - i,
        {
            self.activity_session(&ns[i], out);
            proof {
                let (m, e) = activity_upto(m0, ns@, i + 1);
                assert(models(out@) =~= out0 + e);
            }
            i = i + 1;
        }
    }
}


// ---------------------------------------------------------------------
// Slow tier: rate limits, orphan ports, MCP servers
// ---------------------------------------------------------------------

/// Reset time of the limited window in milliseconds: the five-hour
/// window's if known, else the seven-day window's (saturating).
pub open spec fn resets_ms(rl: RateLimitView) -> Option<u64> {
    let secs = match rl.five_hour_resets_at {
        Some(x) => Some(x),
        None => rl.seven_day_resets_at,
    };
    match secs {
        Some(x) => Some(
            if x * 1000 > u64::MAX {
                u64::MAX
            } else {
                (x * 1000) as u64
            },
        ),
        None => None,
    }
}

/// One provider reading against its quota latch.
pub open spec fn rate_step(m: Map<Seq<char>, bool>, rl: RateLimitView) -> (Map<Seq<char>, bool>, Seq<EventModel>) {
    let p = rl.source@;
    let was = m.get(p) == Some(true);
    if rl.limited && !was {
        (m.insert(p, true), seq![EventModel::RateLimited { provider: p, resets_at_ms: resets_ms(rl) }])
    } else if !rl.limited && was {
        (m.insert(p, false), seq![EventModel::RateLimitCleared { provider: p }])
    } else {
        (m, seq![])
    }
}

pub open spec fn rate_upto(m: Map<Seq<char>, bool>, rls: Seq<RateLimitView>, n: int) -> (Map<Seq<char>, bool>, Seq<EventModel>)
    decreases n,
{
    if n <= 0 {
        (m, seq![])
    } else {
        let (m1, e1) = rate_upto(m, rls, n - 1);
        let (m2, e2) = rate_step(m1, rls[n - 1]);
        (m2, e1 + e2)
    }
}

pub open spec fn has_provider(rls: Seq<RateLimitView>, p: Seq<char>) -> bool {
    exists|j: int| 0 <= j < rls.len() && (#[trigger] rls[j]).source@ == p
}

/// Providers still latched as limited that no longer report at all.
pub open spec fn rate_gone(m: Map<Seq<char>, bool>, rls: Seq<RateLimitView>) -> Set<Seq<char>> {
    Set::new(|p: Seq<char>| m.get(p) == Some(true) && !has_provider(rls, p))
}

/// The vanished latched providers of `gone`, in increasing order (the
/// order of `String`'s `Ord`).
pub open spec fn gone_in_order(gone: Set<Seq<char>>) -> Seq<Seq<char>> {
    choose|ps: Seq<Seq<char>>| sorted_listing(ps, gone)
}

/// `RateLimitCleared` for each provider of `ps`, in order.
pub open spec fn cleared_events(ps: Seq<Seq<char>>) -> Seq<EventModel> {
    ps.map_values(|p: Seq<char>| EventModel::RateLimitCleared { provider: p })
}

/// The quota latches after the vanished providers were cleared.
pub open spec fn after_gone(m: Map<Seq<char>, bool>, gone: Set<Seq<char>>) -> Map<Seq<char>, bool> {
    Map::new(|p: Seq<char>| m.dom().contains(p), |p: Seq<char>| if gone.contains(p) { false } else { m[p] })
}

pub open spec fn has_port(ports: Seq<OrphanPortView>, port: u16) -> bool {
    exists|j: int| 0 <= j < ports.len() && (#[trigger] ports[j]).port == port
}

/// `OrphanPortAppeared` for each entry of `next[..n]` whose port was not
/// in `prev`.
pub open spec fn ports_upto(prev: Seq<OrphanPortView>, next: Seq<OrphanPortView>, n: int) -> Seq<EventModel>
    decreases n,
{
    if n <= 0 {
        seq![]
    } else {
        ports_upto(prev, next, n - 1) + if !has_port(prev, next[n - 1].port) {
            seq![EventModel::OrphanPortAppeared { port: next[n - 1].port, prior_pid: next[n - 1].pid }]
        } else {
            seq![]
        }
    }
}

pub open spec fn has_pid(ms: Seq<McpServerView>, pid: u32) -> bool {
    exists|j: int| 0 <= j < ms.len() && (#[trigger] ms[j]).pid == pid
}

/// `McpServerAppeared` for each entry of `next[..n]` whose PID was not in
/// `prev`.
pub open spec fn mcp_appeared_upto(prev: Seq<McpServerView>, next: Seq<McpServerView>, n: int) -> Seq<EventModel>
    decreases n,
{
    if n <= 0 {
        seq![]
    } else {
        mcp_appeared_upto(prev, next, n - 1) + if !has_pid(prev, next[n - 1].pid) {
            seq![EventModel::McpServerAppeared { pid: next[n - 1].pid, parent_cli: next[n - 1].parent_cli@ }]
        } else {
            seq![]
        }
    }
}

/// `McpServerVanished` for each PID of `prev[..n]` absent from `next`,
/// at its first occurrence in `prev`.
pub open spec fn vanished_upto(prev: Seq<McpServerView>, next: Seq<McpServerView>, n: int) -> Seq<EventModel>
    decreases n,
{
    if n <= 0 {
        seq![]
    } else {
        let pid = prev[n - 1].pid;
        let first = !(exists|j: int| 0 <= j < n - 1 && (#[trigger] prev[j]).pid == pid);
        vanished_upto(prev, next, n - 1) + if first && !has_pid(next, pid) {
            seq![EventModel::McpServerVanished { pid }]
        } else {
            seq![]
        }
    }
}

fn provider_reported(rls: &Vec<RateLimitView>, p: &String) -> (r: bool)
    ensures
        r == has_provider(rls@, p@),
{
    let mut i: usize = 0;
    while i < rls.len()
        invariant
            i <= rls.len(),
            forall|j: int| 0 <= j < i ==> (#[trigger] rls@[j]).source@ != p@,
        decreases rls.len() - i,
    {
        if rls[i].source == *p {
            return true;
        }
        i = i + 1;
    }
    false
}

fn string_listed(v: &Vec<String>, p: &String) -> (r: bool)
    ensures
        r == exists|j: int| 0 <= j < v.len() && (#[trigger] v@[j])@ == p@,
{
    let mut i: usize = 0;
    while i < v.len()
        invariant
            i <= v.len(),
            forall|j: int| 0 <= j < i ==> (#[trigger] v@[j])@ != p@,
        decreases v.len() - i,
    {
        if v[i] == *p {
            return true;
        }
        i = i + 1;
    }
    false
}

fn port_listed(v: &Vec<OrphanPortView>, port: u16) -> (r: bool)
    ensures
        r == has_port(v@, port),
{
    let mut i: usize = 0;
    while i < v.len()
        invariant
            i <= v.len(),
            forall|j: int| 0 <= j < i ==> (#[trigger] v@[j]).port != port,
        decreases v.len() - i,
    {
        if v[i].port == port {
            return true;
        }
        i = i + 1;
    }
    false
}

fn pid_listed(v: &Vec<McpServerView>, pid: u32, upto: usize) -> (r: bool)
    requires
        upto <= v.len(),
    ensures
        r == exists|j: int| 0 <= j < upto && (#[trigger] v@[j]).pid == pid,
{
    let mut i: usize = 0;
    while i < upto
        invariant
            i <= upto <= v.len(),
            forall|j: int| 0 <= j < i ==> (#[trigger] v@[j]).pid != pid,
        decreases upto - i,
    {
        if v[i].pid == pid {
            return true;
        }
        i = i + 1;
    }
    false
}

fn resets_ms_exec(rl: &RateLimitView) -> (r: Option<u64>)
    ensures
        r == resets_ms(*rl),
{
    let secs = match rl.five_hour_resets_at {
        Some(x) => Some(x),
        None => rl.seven_day_resets_at,
    };
    match secs {
        Some(x) => {
            if x > u64::MAX / 1000 {
                Some(u64::MAX)
            } else {
                Some(x * 1000)
            }
        },
        None => None,
    }
}

impl EventDifferState {
    fn diff_rate_limits(&mut self, next: &Snapshot, out: &mut Vec<AppEvent>)
        ensures
            ({
                let (r, e) = rate_upto(old(self)@.rate_limit, next.rate_limits@, next.rate_limits@.len() as int);
                let gone = rate_gone(r, next.rate_limits@);
                &&& models(final(out)@) == models(old(out)@) + e + cleared_events(gone_in_order(gone))
                &&& final(self)@ == DifferModel { rate_limit: after_gone(r, gone), ..old(self)@ }
            }),
    {
        let ghost m0 = self@;
        let ghost out0 = models(out@);
        let rls = &next.rate_limits;
        let mut i: usize = 0;
        while i < rls.len()
            invariant
                i <= rls.len(),
                ({
                    let (r, e) = rate_upto(m0.rate_limit, rls@, i as int);
                    &&& self@ == DifferModel { rate_limit: r, ..m0 }
                    &&& models(out@) == out0 + e
                }),
            decreases rls.len() - i,
        {
            let rl = &rls[i];
            let was = match crate::keyed::get_copy(&self.rate_limit_armed, &rl.source) {
                Some(x) => x,
                None => false,
            };
            if rl.limited && !was {
                let ev = AppEvent::RateLimited { provider: rl.source.clone(), resets_at_ms: resets_ms_exec(rl) };
                proof { lemma_models_push(out@, ev); }
                out.push(ev);
                crate::keyed::insert(&mut self.rate_limit_armed, rl.source.clone(), true);
            } else if !rl.limited && was {
                let ev = AppEvent::RateLimitCleared { provider: rl.source.clone() };
                proof { lemma_models_push(out@, ev); }
                out.push(ev);
                crate::keyed::insert(&mut self.rate_limit_armed, rl.source.clone(), false);
            }
            proof {
                let (r, e) = rate_upto(m0.rate_limit, rls@, i + 1);
                assert(models(out@) =~= out0 + e);
            }
            i = i + 1;
        }
        let ghost r = self@.rate_limit;
        let ghost out1 = models(out@);
        let ghost gone = rate_gone(r, rls@);
        // Providers that disappeared while latched are cleared, in
        // increasing order.
        let mut to_clear: Vec<String> = Vec::new();
        let mut j: usize = 0;
        while j < self.rate_limit_armed.len()
            invariant
                j <= self.rate_limit_armed.len(),
                r == crate::keyed::as_map(self.rate_limit_armed@),
                gone == rate_gone(r, rls@),
                forall|a: int, b: int| 0 <= a < b < to_clear.len() ==> lex_lt((#[trigger] to_clear@[a])@, (#[trigger] to_clear@[b])@),
                forall|a: int| 0 <= a < to_clear.len() ==> gone.contains((#[trigger] to_clear@[a])@),
                forall|k: int| 0 <= k < j && gone.contains((#[trigger] self.rate_limit_armed@[k]).0@) ==> exists|a: int| 0 <= a < to_clear.len() && (#[trigger] to_clear@[a])@ == self.rate_limit_armed@[k].0@,
            decreases self.rate_limit_armed.len() - j,
        {
            let key = &self.rate_limit_armed[j].0;
            let cur = crate::keyed::get_copy(&self.rate_limit_armed, key);
            let reported = provider_reported(rls, key);
            let listed = string_listed(&to_clear, key);
            proof {
                crate::keyed::lemma_as_map_get(self.rate_limit_armed@, key@);
            }
            let ghost tc0 = to_clear@;
            if cur == Some(true) && !reported && !listed {
                let mut pos: usize = 0;
                while pos < to_clear.len() && str_lt(to_clear[pos].as_str(), key.as_str())
                    invariant
                        pos <= to_clear.len(),
                        to_clear@ == tc0,
                        forall|a: int| 0 <= a < pos ==> lex_lt((#[trigger] to_clear@[a])@, key@),
                    decreases to_clear.len() - pos,
                {
                    pos = pos + 1;
                }
                proof {
                    if pos < tc0.len() {
                        assert(tc0[pos as int]@ != key@);
                        crate::text::lemma_lex_lt_total(tc0[pos as int]@, key@);
                    }
                }
                to_clear.insert(pos, key.clone());
                proof {
                    assert forall|a: int, b: int| 0 <= a < b < to_clear.len() implies lex_lt((#[trigger] to_clear@[a])@, (#[trigger] to_clear@[b])@) by {
                        if b < pos {
                            assert(to_clear@[a] == tc0[a] && to_clear@[b] == tc0[b]);
                        } else if b == pos {
                            assert(to_clear@[a] == tc0[a]);
                        } else if a < pos {
                            assert(to_clear@[a] == tc0[a] && to_clear@[b] == tc0[b - 1]);
                            if pos < tc0.len() {
                                if b - 1 > pos {
                                    crate::text::lemma_lex_lt_transitive(key@, tc0[pos as int]@, tc0[b - 1]@);
                                }
                                crate::text::lemma_lex_lt_transitive(tc0[a]@, key@, tc0[b - 1]@);
                            }
                        } else if a == pos {
                            assert(to_clear@[b] == tc0[b - 1]);
                            if b - 1 > pos {
                                crate::text::lemma_lex_lt_transitive(key@, tc0[pos as int]@, tc0[b - 1]@);
                            }
                        } else {
                            assert(to_clear@[a] == tc0[a - 1] && to_clear@[b] == tc0[b - 1]);
                        }
                    }
                    assert(to_clear@[pos as int]@ == key@);
                    assert(exists|a: int| 0 <= a < to_clear.len() && (#[trigger] to_clear@[a])@ == key@);
                    assert forall|a: int| 0 <= a < tc0.len() implies #[trigger] to_clear@.contains(tc0[a]) by {
                        if a < pos {
                            assert(to_clear@[a] == tc0[a]);
                        } else {
                            assert(to_clear@[a + 1] == tc0[a]);
                        }
                    }
                    assert forall|a: int| 0 <= a < to_clear.len() implies gone.contains((#[trigger] to_clear@[a])@) by {
                        if a < pos {
                            assert(to_clear@[a] == tc0[a]);
                        } else if a > pos {
                            assert(to_clear@[a] == tc0[a - 1]);
                        }
                    }
                }
            }
            proof {
                assert forall|a: int| 0 <= a < tc0.len() implies #[trigger] to_clear@.contains(tc0[a]) by {
                    if to_clear@ == tc0 {
                        assert(to_clear@[a] == tc0[a]);
                    }
                }
                assert forall|k: int| 0 <= k < j + 1 && gone.contains((#[trigger] self.rate_limit_armed@[k]).0@) implies exists|a: int| 0 <= a < to_clear.len() && (#[trigger] to_clear@[a])@ == self.rate_limit_armed@[k].0@ by {
                    let target = self.rate_limit_armed@[k].0@;
                    if k < j || listed {
                        let a = choose|a: int| 0 <= a < tc0.len() && (#[trigger] tc0[a])@ == target;
                        assert(to_clear@.contains(tc0[a]));
                        let b = choose|b: int| 0 <= b < to_clear.len() && to_clear@[b] == tc0[a];
                        assert(to_clear@[b]@ == target);
                    }
                }
            }
            j = j + 1;
        }
        proof {
            assert forall|p: Seq<char>| gone.contains(p) implies exists|a: int| 0 <= a < to_clear.len() && (#[trigger] to_clear@[a])@ == p by {
                crate::keyed::lemma_as_map_get(self.rate_limit_armed@, p);
                crate::keyed::lemma_lookup_some_has_entry(self.rate_limit_armed@, p);
                let k = choose|k: int| 0 <= k < self.rate_limit_armed@.len() && (#[trigger] self.rate_limit_armed@[k]).0@ == p;
                assert(gone.contains(self.rate_limit_armed@[k].0@));
            }
            assert forall|a: int, b: int| 0 <= a < b < to_clear.len() implies (#[trigger] to_clear@[a])@ != (#[trigger] to_clear@[b])@ by {
                crate::text::lemma_lex_lt_asymmetric(to_clear@[a]@, to_clear@[a]@);
            }
        }
        proof {
            let m_init = Map::new(|q: Seq<char>| r.dom().contains(q), |q: Seq<char>|
                if exists|a: int| 0 <= a < 0 && (#[trigger] to_clear@[a])@ == q { false } else { r[q] });
            assert(m_init =~= r);
        }
        let mut c: usize = 0;
        while c < to_clear.len()
            invariant
                c <= to_clear.len(),
                gone == rate_gone(r, rls@),
                forall|a: int, b: int| 0 <= a < b < to_clear.len() ==> (#[trigger] to_clear@[a])@ != (#[trigger] to_clear@[b])@,
                forall|a: int, b: int| 0 <= a < b < to_clear.len() ==> lex_lt((#[trigger] to_clear@[a])@, (#[trigger] to_clear@[b])@),
                forall|a: int| 0 <= a < to_clear.len() ==> gone.contains((#[trigger] to_clear@[a])@),
                models(out@) == out1 + Seq::new(c as nat, |a: int| EventModel::RateLimitCleared { provider: to_clear@[a]@ }),
                self@ == (DifferModel {
                    rate_limit: Map::new(|p: Seq<char>| r.dom().contains(p), |p: Seq<char>|
                        if exists|a: int| 0 <= a < c && (#[trigger] to_clear@[a])@ == p { false } else { r[p] }),
                    ..m0
                }),
            decreases to_clear.len() - c,
        {
            let ev = AppEvent::RateLimitCleared { provider: to_clear[c].clone() };
            proof { lemma_models_push(out@, ev); }
            out.push(ev);
            let ghost before = self@.rate_limit;
            crate::keyed::insert(&mut self.rate_limit_armed, to_clear[c].clone(), false);
            proof {
                assert(models(out@) =~= out1 + Seq::new((c + 1) as nat, |a: int| EventModel::RateLimitCleared { provider: to_clear@[a]@ }));
                let p = to_clear@[c as int]@;
                assert(r.dom().contains(p));
                let nm = Map::new(|q: Seq<char>| r.dom().contains(q), |q: Seq<char>|
                        if exists|a: int| 0 <= a < c + 1 && (#[trigger] to_clear@[a])@ == q { false } else { r[q] });
                assert forall|q: Seq<char>| #[trigger] self@.rate_limit.dom().contains(q) <==> nm.dom().contains(q) by {}
                assert forall|q: Seq<char>| self@.rate_limit.dom().contains(q) implies #[trigger] self@.rate_limit[q] == nm[q] by {
                    if q == p {
                        assert(to_clear@[c as int]@ == q);
                    }
                }
                assert(self@.rate_limit =~= nm);
            }
            c = c + 1;
        }
        proof {
            let g = Seq::new(to_clear.len() as nat, |a: int| EventModel::RateLimitCleared { provider: to_clear@[a]@ });
            let tv = to_clear@.map_values(|x: String| x@);
            assert forall|p: Seq<char>| gone.contains(p) <==> #[trigger] tv.contains(p) by {
                if gone.contains(p) {
                    let a = choose|a: int| 0 <= a < to_clear.len() && (#[trigger] to_clear@[a])@ == p;
                    assert(tv[a] == p);
                }
                if tv.contains(p) {
                    let a = choose|a: int| 0 <= a < tv.len() && tv[a] == p;
                    assert(gone.contains(to_clear@[a]@));
                }
            }
            assert forall|a: int, b: int| 0 <= a < b < tv.len() implies lex_lt(#[trigger] tv[a], #[trigger] tv[b]) by {
                assert(lex_lt(to_clear@[a]@, to_clear@[b]@));
            }
            assert(sorted_listing(tv, gone));
            crate::text::lemma_sorted_listing_unique(tv, gone_in_order(gone), gone);
            assert(g =~= cleared_events(gone_in_order(gone)));
            let fm = after_gone(r, gone);
            assert forall|q: Seq<char>| self@.rate_limit.dom().contains(q) implies #[trigger] self@.rate_limit[q] == fm[q] by {
                if gone.contains(q) {
                    let a = choose|a: int| 0 <= a < to_clear.len() && (#[trigger] to_clear@[a])@ == q;
                    assert(to_clear@[a]@ == q);
                } else {
                    if exists|a: int| 0 <= a < to_clear.len() && (#[trigger] to_clear@[a])@ == q {
                        let a = choose|a: int| 0 <= a < to_clear.len() && (#[trigger] to_clear@[a])@ == q;
                        assert(gone.contains(to_clear@[a]@));
                    }
                }
            }
            assert(self@.rate_limit =~= fm);
            assert(models(out@) == models(old(out)@) + rate_upto(m0.rate_limit, rls@, rls@.len() as int).1 + cleared_events(gone_in_order(gone)));
        }
    }
}

fn diff_orphan_ports(prev: &Snapshot, next: &Snapshot, out: &mut Vec<AppEvent>)
    ensures
        models(final(out)@) == models(old(out)@) + ports_upto(prev.orphan_ports@, next.orphan_ports@, next.orphan_ports@.len() as int),
{
    let ghost out0 = models(out@);
    let np = &next.orphan_ports;
    let mut i: usize = 0;
    while i < np.len()
        invariant
            i <= np.len(),
            models(out@) == out0 + ports_upto(prev.orphan_ports@, np@, i as int),
        decreases np.len() - i,
    {
        if !port_listed(&prev.orphan_ports, np[i].port) {
            let ev = AppEvent::OrphanPortAppeared { port: np[i].port, prior_pid: np[i].pid };
            proof { lemma_models_push(out@, ev); }
            out.push(ev);
        }
        proof {
            assert(models(out@) =~= out0 + ports_upto(prev.orphan_ports@, np@, i + 1));
        }
        i = i + 1;
    }
}

fn diff_mcp_servers(prev: &Snapshot, next: &Snapshot, out: &mut Vec<AppEvent>)
    ensures
        models(final(out)@) == models(old(out)@) + mcp_appeared_upto(prev.mcp_servers@, next.mcp_servers@, next.mcp_servers@.len() as int)
            + vanished_upto(prev.mcp_servers@, next.mcp_servers@, prev.mcp_servers@.len() as int),
{
    let ghost out0 = models(out@);
    let pm = &prev.mcp_servers;
    let nm = &next.mcp_servers;
    let mut i: usize = 0;
    while i < nm.len()
        invariant
            i <= nm.len(),
            models(out@) == out0 + mcp_appeared_upto(pm@, nm@, i as int),
        decreases nm.len() - i,
    {
        if !pid_listed(pm, nm[i].pid, pm.len()) {
            let ev = AppEvent::McpServerAppeared { pid: nm[i].pid, parent_cli: nm[i].parent_cli.clone() };
            proof { lemma_models_push(out@, ev); }
            out.push(ev);
        }
        proof {
            assert(models(out@) =~= out0 + mcp_appeared_upto(pm@, nm@, i + 1));
        }
        i = i + 1;
    }
    let ghost out1 = models(out@);
    let mut i: usize = 0;
    while i < pm.len()
        invariant
            i <= pm.len(),
            models(out@) == out1 + vanished_upto(pm@, nm@, i as int),
        decreases pm.len() - i,
    {
        let pid = pm[i].pid;
        let seen_before = pid_listed(pm, pid, i);
        let in_next = pid_listed(nm, pid, nm.len());
        if !seen_before && !in_next {
            let ev = AppEvent::McpServerVanished { pid };
            proof { lemma_models_push(out@, ev); }
            out.push(ev);
        }
        proof {
            assert(pm@[i as int].pid == pid);
            assert(models(out@) =~= out1 + vanished_upto(pm@, nm@, i + 1));
        }
        i = i + 1;
    }
}


// ---------------------------------------------------------------------
// The whole diff
// ---------------------------------------------------------------------

/// State and events after the phases evaluated on every tick:
/// lifecycle/status, context thresholds, token rate, host load, activity.
pub open spec fn fast_phase(m0: DifferModel, prev: Snapshot, next: Snapshot, token: TokenReading) -> (DifferModel, Seq<EventModel>) {
    let e1 = session_events(prev.sessions@, next.sessions@);
    let m1 = purge_ended(m0, ended_ids(prev.sessions@, next.sessions@));
    let (c, e2) = context_upto(m1.context, next.sessions@, next.sessions@.len() as int);
    let m2 = DifferModel { context: c, ..m1 };
    let (m3, e3) = token_step(m2, token);
    let (m4, e4) = host_step(m3, next.host);
    let (m5, e5) = activity_upto(m4, next.sessions@, next.sessions@.len() as int);
    (m5, e1 + e2 + e3 + e4 + e5)
}

/// `events` and the state `m_end` are what [`diff`] produces from `m0`:
/// the every-tick phases, then — only when the slow collector ran — rate
/// limits (then each vanished latched provider cleared once, in
/// increasing order), orphan ports, appeared MCP servers, and each
/// vanished MCP server once, in the order of its first entry in `prev`.
pub open spec fn diff_outcome(m0: DifferModel, prev: Snapshot, next: Snapshot, slow: bool, token: TokenReading, m_end: DifferModel, events: Seq<EventModel>) -> bool {
    let (m5, fast) = fast_phase(m0, prev, next, token);
    if !slow {
        m_end == m5 && events == fast
    } else {
        let (r, e6) = rate_upto(m5.rate_limit, next.rate_limits@, next.rate_limits@.len() as int);
        let gone = rate_gone(r, next.rate_limits@);
        let e8 = ports_upto(prev.orphan_ports@, next.orphan_ports@, next.orphan_ports@.len() as int);
        let e9 = mcp_appeared_upto(prev.mcp_servers@, next.mcp_servers@, next.mcp_servers@.len() as int);
        let g = cleared_events(gone_in_order(gone));
        let v = vanished_upto(prev.mcp_servers@, next.mcp_servers@, prev.mcp_servers@.len() as int);
        &&& events == fast + e6 + g + e8 + e9 + v
        &&& m_end == (DifferModel { rate_limit: after_gone(r, gone), ..m5 })
    }
}

/// Computes the events between `prev` and `next` and updates the
/// detector state. Slow-tier domains (rate limits, orphan ports, MCP
/// servers) are evaluated only when `slow_tick_ran`. `_now_ms` is not
/// consumed.
pub fn diff(
    state: &mut EventDifferState,
    prev: &Snapshot,
    next: &Snapshot,
    slow_tick_ran: bool,
    _now_ms: u64,
    token: &TokenReading,
) -> (events: Vec<AppEvent>)
    ensures
        diff_outcome(old(state)@, *prev, *next, slow_tick_ran, *token, final(state)@, models(events@)),
{
    let mut events: Vec<AppEvent> = Vec::new();
    let ghost m0 = state@;
    state.diff_sessions(prev, next, &mut events);
    state.diff_context_thresholds(next, &mut events);
    state.diff_token_rate(token, &mut events);
    state.diff_host_load(next, &mut events);
    state.diff_activity(next, &mut events);
    let ghost fast = models(events@);
    let ghost m5 = state@;
    proof {
        let (fm, fe) = fast_phase(m0, *prev, *next, *token);
        assert(fast =~= fe);
        assert(fm == m5);
    }
    if slow_tick_ran {
        state.diff_rate_limits(next, &mut events);
        let ghost after_rate = models(events@);
        diff_orphan_ports(prev, next, &mut events);
        diff_mcp_servers(prev, next, &mut events);
        proof {
            let (r, e6) = rate_upto(m5.rate_limit, next.rate_limits@, next.rate_limits@.len() as int);
            let gone = rate_gone(r, next.rate_limits@);
            let g = cleared_events(gone_in_order(gone));
            let e8 = ports_upto(prev.orphan_ports@, next.orphan_ports@, next.orphan_ports@.len() as int);
            let e9 = mcp_appeared_upto(prev.mcp_servers@, next.mcp_servers@, next.mcp_servers@.len() as int);
            let v = vanished_upto(prev.mcp_servers@, next.mcp_servers@, prev.mcp_servers@.len() as int);
            assert(models(events@) =~= fast + e6 + g + e8 + e9 + v);
        }
    }
    events
}

impl EventDifferState {
    /// Latch of context bucket `bucket` (70, 90 or 95) for `session_id`:
    /// `None` when the detector holds no decision for it.
    pub fn context_bucket_armed(&self, session_id: &String, bucket: u8) -> (r: Option<bool>)
        ensures
            r == (match self@.context.get(session_id@) {
                Some(l) => if bucket == 70 {
                    l.b70
                } else if bucket == 90 {
                    l.b90
                } else if bucket == 95 {
                    l.b95
                } else {
                    None
                },
                None => None,
            }),
    {
        match crate::keyed::get_copy(&self.context_bucket_armed, session_id) {
            Some(l) => if bucket == 70 {
                l.b70
            } else if bucket == 90 {
                l.b90
            } else if bucket == 95 {
                l.b95
            } else {
                None
            },
            None => None,
        }
    }

    /// Rolling token-rate baseline (`f64` bits), if any tick set one.
    pub fn token_rate_baseline(&self) -> (r: Option<u64>)
        ensures
            r == self@.token_rate_baseline,
    {
        self.token_rate_baseline
    }

    /// Primes the context latch of `bucket` for `session_id` to `armed`.
    pub fn set_context_bucket(&mut self, session_id: &String, bucket: u8, armed: bool)
        requires
            bucket == 70 || bucket == 90 || bucket == 95,
        ensures
            ({
                let cur = match old(self)@.context.get(session_id@) {
                    Some(l) => l,
                    None => no_latches(),
                };
                final(self)@ == DifferModel {
                    context: old(self)@.context.insert(session_id@, with_latch(cur, if bucket == 70 { 0 } else if bucket == 90 { 1 } else { 2 }, armed)),
                    ..old(self)@
                }
            }),
    {
        let cur = match crate::keyed::get_copy(&self.context_bucket_armed, session_id) {
            Some(l) => l,
            None => BucketLatches { b70: None, b90: None, b95: None },
        };
        let nl = if bucket == 70 {
            BucketLatches { b70: Some(armed), ..cur }
        } else if bucket == 90 {
            BucketLatches { b90: Some(armed), ..cur }
        } else {
            BucketLatches { b95: Some(armed), ..cur }
        };
        crate::keyed::insert(&mut self.context_bucket_armed, session_id.clone(), nl);
    }
}


// ---------------------------------------------------------------------
// Laws
// ---------------------------------------------------------------------

pub open spec fn all_fast(e: Seq<EventModel>) -> bool {
    forall|i: int| 0 <= i < e.len() ==> crate::events::tier_of(#[trigger] e[i]) == crate::events::EventTier::Fast
}

proof fn lemma_all_fast_concat(a: Seq<EventModel>, b: Seq<EventModel>)
    requires
        all_fast(a),
        all_fast(b),
    ensures
        all_fast(a + b),
{
    assert forall|i: int| 0 <= i < (a + b).len() implies crate::events::tier_of(#[trigger] (a + b)[i]) == crate::events::EventTier::Fast by {
        if i < a.len() {
            assert((a + b)[i] == a[i]);
        } else {
            assert((a + b)[i] == b[i - a.len()]);
        }
    }
}

proof fn lemma_started_fast(prev: Seq<SessionView>, next: Seq<SessionView>, n: int)
    ensures
        all_fast(started_upto(prev, next, n)),
    decreases n,
{
    if n > 0 {
        lemma_started_fast(prev, next, n - 1);
        let id = next[n - 1].session_id@;
        let v = last_view(next, id)->0;
        lemma_all_fast_concat(started_upto(prev, next, n - 1), if first_occurrence(next, n - 1) && last_view(prev, id) is None {
            seq![EventModel::SessionStarted { session_id: id, agent_cli: v.agent_cli@, pid: v.pid }]
        } else {
            seq![]
        });
    }
}

proof fn lemma_ended_fast(prev: Seq<SessionView>, next: Seq<SessionView>, m: int)
    ensures
        all_fast(ended_upto(prev, next, m)),
    decreases m,
{
    if m > 0 {
        lemma_ended_fast(prev, next, m - 1);
        let id = prev[m - 1].session_id@;
        lemma_all_fast_concat(ended_upto(prev, next, m - 1), if first_occurrence(prev, m - 1) && last_view(next, id) is None {
            seq![EventModel::SessionEnded { session_id: id }]
        } else {
            seq![]
        });
    }
}

proof fn lemma_status_fast(prev: Seq<SessionView>, next: Seq<SessionView>, k: int)
    ensures
        all_fast(status_upto(prev, next, k)),
    decreases k,
{
    if k > 0 {
        lemma_status_fast(prev, next, k - 1);
        let id = next[k - 1].session_id@;
        let nv = last_view(next, id)->0;
        let pv = last_view(prev, id)->0;
        lemma_all_fast_concat(status_upto(prev, next, k - 1), if first_occurrence(next, k - 1) && last_view(prev, id) is Some
            && pv.status@ != nv.status@ {
            seq![EventModel::StatusChanged { session_id: id, from: pv.status@, to: nv.status@ }]
        } else {
            seq![]
        });
    }
}

proof fn lemma_context_fast(m: Map<Seq<char>, BucketLatches>, s: Seq<SessionView>, n: int)
    ensures
        all_fast(context_upto(m, s, n).1),
    decreases n,
{
    if n > 0 {
        lemma_context_fast(m, s, n - 1);
        let (m1, e1) = context_upto(m, s, n - 1);
        let (ma, ea) = bucket_step(m1, s[n - 1], 0);
        let (mb, eb) = bucket_step(ma, s[n - 1], 1);
        let (mc, ec) = bucket_step(mb, s[n - 1], 2);
        lemma_all_fast_concat(ea, eb);
        lemma_all_fast_concat(ea + eb, ec);
        lemma_all_fast_concat(e1, ea + eb + ec);
    }
}

proof fn lemma_subagents_fast(seen: Set<Seq<char>>, id: Seq<char>, names: Seq<String>, n: int)
    ensures
        all_fast(subagents_upto(seen, id, names, n).1),
    decreases n,
{
    if n > 0 {
        lemma_subagents_fast(seen, id, names, n - 1);
    }
}

proof fn lemma_activity_fast(m: DifferModel, s: Seq<SessionView>, n: int)
    ensures
        all_fast(activity_upto(m, s, n).1),
    decreases n,
{
    if n > 0 {
        lemma_activity_fast(m, s, n - 1);
        let (m1, e1) = activity_upto(m, s, n - 1);
        let ss = s[n - 1];
        let id = ss.session_id@;
        let seen_len: int = match m1.tool_tail_len.get(id) {
            Some(x) => x as int,
            None => 0,
        };
        let cc = ss.compaction_count;
        let pc = match m1.compaction_seen.get(id) {
            Some(x) => x,
            None => cc,
        };
        let seen0 = match m1.subagents_seen.get(id) {
            Some(x) => x,
            None => Set::empty(),
        };
        lemma_subagents_fast(seen0, id, ss.subagents@, ss.subagents@.len() as int);
        let e3 = subagents_upto(seen0, id, ss.subagents@, ss.subagents@.len() as int).1;
        lemma_all_fast_concat(tool_events(ss, seen_len), compaction_events(id, cc, pc));
        lemma_all_fast_concat(tool_events(ss, seen_len) + compaction_events(id, cc, pc), e3);
        lemma_all_fast_concat(e1, tool_events(ss, seen_len) + compaction_events(id, cc, pc) + e3);
    }
}

proof fn lemma_contains_append(a: Seq<EventModel>, b: Seq<EventModel>, x: EventModel)
    requires
        a.contains(x) || b.contains(x),
    ensures
        (a + b).contains(x),
{
    if a.contains(x) {
        let k = choose|k: int| 0 <= k < a.len() && a[k] == x;
        assert((a + b)[k] == x);
    } else {
        let k = choose|k: int| 0 <= k < b.len() && b[k] == x;
        assert((a + b)[a.len() + k] == x);
    }
}

/// Some entry of `s[..n]` carries `id`, and the first such entry is
/// either `s[n - 1]` or lies before it.
proof fn lemma_id_in_prefix_step(s: Seq<SessionView>, n: int, id: Seq<char>)
    requires
        0 < n <= s.len(),
        exists|j: int| 0 <= j < n && (#[trigger] s[j]).session_id@ == id,
    ensures
        (s[n - 1].session_id@ == id && first_occurrence(s, n - 1))
            || exists|j: int| 0 <= j < n - 1 && (#[trigger] s[j]).session_id@ == id,
{
    if !(exists|j: int| 0 <= j < n - 1 && (#[trigger] s[j]).session_id@ == id) {
        let j = choose|j: int| 0 <= j < n && (#[trigger] s[j]).session_id@ == id;
        assert(j == n - 1);
    }
}

proof fn lemma_started_has(prev: Seq<SessionView>, next: Seq<SessionView>, n: int, id: Seq<char>)
    requires
        0 <= n <= next.len(),
        exists|j: int| 0 <= j < n && (#[trigger] next[j]).session_id@ == id,
        last_view(prev, id) is None,
    ensures
        started_upto(prev, next, n).contains(EventModel::SessionStarted {
            session_id: id,
            agent_cli: last_view(next, id)->0.agent_cli@,
            pid: last_view(next, id)->0.pid,
        }),
    decreases n,
{
    let x = EventModel::SessionStarted { session_id: id, agent_cli: last_view(next, id)->0.agent_cli@, pid: last_view(next, id)->0.pid };
    lemma_id_in_prefix_step(next, n, id);
    let tail = if first_occurrence(next, n - 1) && last_view(prev, next[n - 1].session_id@) is None {
        seq![EventModel::SessionStarted { session_id: next[n - 1].session_id@, agent_cli: last_view(next, next[n - 1].session_id@)->0.agent_cli@, pid: last_view(next, next[n - 1].session_id@)->0.pid }]
    } else {
        seq![]
    };
    assert(started_upto(prev, next, n) == started_upto(prev, next, n - 1) + tail);
    if next[n - 1].session_id@ == id && first_occurrence(next, n - 1) {
        assert(tail[0] == x);
        lemma_contains_append(started_upto(prev, next, n - 1), tail, x);
    } else {
        lemma_started_has(prev, next, n - 1, id);
        lemma_contains_append(started_upto(prev, next, n - 1), tail, x);
    }
}

proof fn lemma_ended_has(prev: Seq<SessionView>, next: Seq<SessionView>, n: int, id: Seq<char>)
    requires
        0 <= n <= prev.len(),
        exists|j: int| 0 <= j < n && (#[trigger] prev[j]).session_id@ == id,
        last_view(next, id) is None,
    ensures
        ended_upto(prev, next, n).contains(EventModel::SessionEnded { session_id: id }),
    decreases n,
{
    let x = EventModel::SessionEnded { session_id: id };
    lemma_id_in_prefix_step(prev, n, id);
    let tail = if first_occurrence(prev, n - 1) && last_view(next, prev[n - 1].session_id@) is None {
        seq![EventModel::SessionEnded { session_id: prev[n - 1].session_id@ }]
    } else {
        seq![]
    };
    assert(ended_upto(prev, next, n) == ended_upto(prev, next, n - 1) + tail);
    if prev[n - 1].session_id@ == id && first_occurrence(prev, n - 1) {
        assert(tail[0] == x);
        lemma_contains_append(ended_upto(prev, next, n - 1), tail, x);
    } else {
        lemma_ended_has(prev, next, n - 1, id);
        lemma_contains_append(ended_upto(prev, next, n - 1), tail, x);
    }
}

proof fn lemma_status_has(prev: Seq<SessionView>, next: Seq<SessionView>, n: int, id: Seq<char>)
    requires
        0 <= n <= next.len(),
        exists|j: int| 0 <= j < n && (#[trigger] next[j]).session_id@ == id,
        last_view(prev, id) is Some,
        last_view(prev, id)->0.status@ != last_view(next, id)->0.status@,
    ensures
        status_upto(prev, next, n).contains(EventModel::StatusChanged {
            session_id: id,
            from: last_view(prev, id)->0.status@,
            to: last_view(next, id)->0.status@,
        }),
    decreases n,
{
    let x = EventModel::StatusChanged { session_id: id, from: last_view(prev, id)->0.status@, to: last_view(next, id)->0.status@ };
    lemma_id_in_prefix_step(next, n, id);
    let nid = next[n - 1].session_id@;
    let nv = last_view(next, nid)->0;
    let pv = last_view(prev, nid)->0;
    let tail = if first_occurrence(next, n - 1) && last_view(prev, nid) is Some && pv.status@ != nv.status@ {
        seq![EventModel::StatusChanged { session_id: nid, from: pv.status@, to: nv.status@ }]
    } else {
        seq![]
    };
    assert(status_upto(prev, next, n) == status_upto(prev, next, n - 1) + tail);
    if nid == id && first_occurrence(next, n - 1) {
        assert(tail[0] == x);
        lemma_contains_append(status_upto(prev, next, n - 1), tail, x);
    } else {
        lemma_status_has(prev, next, n - 1, id);
        lemma_contains_append(status_upto(prev, next, n - 1), tail, x);
    }
}

/// Lifecycle over one run of the detector: a session id that appears is
/// reported started (with its agent and PID), one that disappears is
/// reported ended, and one whose status differs is reported with its old
/// and new status.
pub proof fn law_lifecycle_events(
    m0: DifferModel,
    prev: Snapshot,
    next: Snapshot,
    slow: bool,
    token: TokenReading,
    m1: DifferModel,
    events: Seq<EventModel>,
    id: Seq<char>,
)
    requires
        diff_outcome(m0, prev, next, slow, token, m1, events),
    ensures
        last_view(next.sessions@, id) is Some && last_view(prev.sessions@, id) is None ==> events.contains(
            EventModel::SessionStarted {
                session_id: id,
                agent_cli: last_view(next.sessions@, id)->0.agent_cli@,
                pid: last_view(next.sessions@, id)->0.pid,
            },
        ),
        last_view(prev.sessions@, id) is Some && last_view(next.sessions@, id) is None ==> events.contains(
            EventModel::SessionEnded { session_id: id },
        ),
        last_view(prev.sessions@, id) is Some && last_view(next.sessions@, id) is Some
            && last_view(prev.sessions@, id)->0.status@ != last_view(next.sessions@, id)->0.status@ ==> events.contains(
            EventModel::StatusChanged {
                session_id: id,
                from: last_view(prev.sessions@, id)->0.status@,
                to: last_view(next.sessions@, id)->0.status@,
            },
        ),
{
    let p = prev.sessions@;
    let n = next.sessions@;
    let (m5, fast) = fast_phase(m0, prev, next, token);
    let e1 = session_events(p, n);
    let rest = fast.subrange(e1.len() as int, fast.len() as int);
    assert(fast =~= e1 + rest);
    let later = events.subrange(fast.len() as int, events.len() as int);
    assert(events =~= fast + later);
    let a = started_upto(p, n, n.len() as int);
    let b = ended_upto(p, n, p.len() as int);
    let c = status_upto(p, n, n.len() as int);
    assert(e1 == a + b + c);
    if last_view(n, id) is Some {
        lemma_last_view_some_has_index(n, id);
    }
    if last_view(p, id) is Some {
        lemma_last_view_some_has_index(p, id);
    }
    if last_view(n, id) is Some && last_view(p, id) is None {
        let x = EventModel::SessionStarted { session_id: id, agent_cli: last_view(n, id)->0.agent_cli@, pid: last_view(n, id)->0.pid };
        lemma_started_has(p, n, n.len() as int, id);
        lemma_contains_append(a, b, x);
        lemma_contains_append(a + b, c, x);
        lemma_contains_append(e1, rest, x);
        lemma_contains_append(fast, later, x);
    }
    if last_view(p, id) is Some && last_view(n, id) is None {
        let x = EventModel::SessionEnded { session_id: id };
        lemma_ended_has(p, n, p.len() as int, id);
        lemma_contains_append(a, b, x);
        lemma_contains_append(a + b, c, x);
        lemma_contains_append(e1, rest, x);
        lemma_contains_append(fast, later, x);
    }
    if last_view(p, id) is Some && last_view(n, id) is Some && last_view(p, id)->0.status@ != last_view(n, id)->0.status@ {
        let x = EventModel::StatusChanged { session_id: id, from: last_view(p, id)->0.status@, to: last_view(n, id)->0.status@ };
        lemma_status_has(p, n, n.len() as int, id);
        lemma_contains_append(a + b, c, x);
        lemma_contains_append(e1, rest, x);
        lemma_contains_append(fast, later, x);
    }
}

/// A lifecycle or status event.
pub open spec fn is_lifecycle(e: EventModel) -> bool {
    e is SessionStarted || e is SessionEnded || e is StatusChanged
}

/// No event of `es` is a lifecycle or status event.
pub open spec fn no_lifecycle(es: Seq<EventModel>) -> bool {
    forall|i: int| 0 <= i < es.len() ==> !is_lifecycle(#[trigger] es[i])
}

proof fn lemma_no_lifecycle_concat(a: Seq<EventModel>, b: Seq<EventModel>)
    requires
        no_lifecycle(a),
        no_lifecycle(b),
    ensures
        no_lifecycle(a + b),
{
    assert forall|i: int| 0 <= i < (a + b).len() implies !is_lifecycle(#[trigger] (a + b)[i]) by {
        if i < a.len() {
            assert((a + b)[i] == a[i]);
        } else {
            assert((a + b)[i] == b[i - a.len()]);
        }
    }
}

/// No event of `es` is a context-threshold event.
pub open spec fn no_threshold(es: Seq<EventModel>) -> bool {
    forall|i: int| 0 <= i < es.len() ==> !((#[trigger] es[i]) is ContextThreshold)
}

/// Neither lifecycle nor context-threshold events.
pub open spec fn other_only(es: Seq<EventModel>) -> bool {
    no_lifecycle(es) && no_threshold(es)
}

proof fn lemma_other_only_concat(a: Seq<EventModel>, b: Seq<EventModel>)
    requires
        other_only(a),
        other_only(b),
    ensures
        other_only(a + b),
{
    lemma_no_lifecycle_concat(a, b);
    assert forall|i: int| 0 <= i < (a + b).len() implies !((#[trigger] (a + b)[i]) is ContextThreshold) by {
        if i < a.len() {
            assert((a + b)[i] == a[i]);
        } else {
            assert((a + b)[i] == b[i - a.len()]);
        }
    }
}

proof fn lemma_context_no_lifecycle(m: Map<Seq<char>, BucketLatches>, s: Seq<SessionView>, n: int)
    ensures
        no_lifecycle(context_upto(m, s, n).1),
    decreases n,
{
    if n > 0 {
        lemma_context_no_lifecycle(m, s, n - 1);
        let (m1, e1) = context_upto(m, s, n - 1);
        let (ma, ea) = bucket_step(m1, s[n - 1], 0);
        let (mb, eb) = bucket_step(ma, s[n - 1], 1);
        let (mc, ec) = bucket_step(mb, s[n - 1], 2);
        lemma_no_lifecycle_concat(ea, eb);
        lemma_no_lifecycle_concat(ea + eb, ec);
        lemma_no_lifecycle_concat(e1, ea + eb + ec);
    }
}

proof fn lemma_subagents_no_lifecycle(seen: Set<Seq<char>>, id: Seq<char>, names: Seq<String>, n: int)
    ensures
        other_only(subagents_upto(seen, id, names, n).1),
    decreases n,
{
    if n > 0 {
        lemma_subagents_no_lifecycle(seen, id, names, n - 1);
        let (s1, e1) = subagents_upto(seen, id, names, n - 1);
        if !s1.contains(names[n - 1]@) {
            let e = e1.push(EventModel::SubagentSpawned { session_id: id, name: names[n - 1]@ });
            assert forall|i: int| 0 <= i < e.len() implies !is_lifecycle(#[trigger] e[i]) by {
                if i < e1.len() {
                    assert(e[i] == e1[i]);
                }
            }
        }
    }
}

proof fn lemma_activity_no_lifecycle(m: DifferModel, s: Seq<SessionView>, n: int)
    ensures
        other_only(activity_upto(m, s, n).1),
    decreases n,
{
    if n > 0 {
        lemma_activity_no_lifecycle(m, s, n - 1);
        let (m1, e1) = activity_upto(m, s, n - 1);
        let sv = s[n - 1];
        let id = sv.session_id@;
        let seen_len: int = match m1.tool_tail_len.get(id) {
            Some(x) => x as int,
            None => 0,
        };
        let cc = sv.compaction_count;
        let pc = match m1.compaction_seen.get(id) {
            Some(x) => x,
            None => cc,
        };
        let seen0 = match m1.subagents_seen.get(id) {
            Some(x) => x,
            None => Set::empty(),
        };
        lemma_subagents_no_lifecycle(seen0, id, sv.subagents@, sv.subagents@.len() as int);
        let t = tool_events(sv, seen_len);
        let c = compaction_events(id, cc, pc);
        let e3 = subagents_upto(seen0, id, sv.subagents@, sv.subagents@.len() as int).1;
        assert(other_only(t));
        assert(other_only(c));
        lemma_other_only_concat(t, c);
        lemma_other_only_concat(t + c, e3);
        lemma_other_only_concat(e1, t + c + e3);
    }
}

proof fn lemma_rate_no_lifecycle(m: Map<Seq<char>, bool>, rls: Seq<RateLimitView>, n: int)
    ensures
        other_only(rate_upto(m, rls, n).1),
    decreases n,
{
    if n > 0 {
        lemma_rate_no_lifecycle(m, rls, n - 1);
        let (m1, e1) = rate_upto(m, rls, n - 1);
        lemma_other_only_concat(e1, rate_step(m1, rls[n - 1]).1);
    }
}

proof fn lemma_ports_no_lifecycle(prev: Seq<OrphanPortView>, next: Seq<OrphanPortView>, n: int)
    ensures
        other_only(ports_upto(prev, next, n)),
    decreases n,
{
    if n > 0 {
        lemma_ports_no_lifecycle(prev, next, n - 1);
        let t = if !has_port(prev, next[n - 1].port) {
            seq![EventModel::OrphanPortAppeared { port: next[n - 1].port, prior_pid: next[n - 1].pid }]
        } else {
            seq![]
        };
        lemma_other_only_concat(ports_upto(prev, next, n - 1), t);
    }
}

proof fn lemma_mcp_appeared_no_lifecycle(prev: Seq<McpServerView>, next: Seq<McpServerView>, n: int)
    ensures
        other_only(mcp_appeared_upto(prev, next, n)),
    decreases n,
{
    if n > 0 {
        lemma_mcp_appeared_no_lifecycle(prev, next, n - 1);
        let t = if !has_pid(prev, next[n - 1].pid) {
            seq![EventModel::McpServerAppeared { pid: next[n - 1].pid, parent_cli: next[n - 1].parent_cli@ }]
        } else {
            seq![]
        };
        lemma_other_only_concat(mcp_appeared_upto(prev, next, n - 1), t);
    }
}

proof fn lemma_vanished_no_lifecycle(prev: Seq<McpServerView>, next: Seq<McpServerView>, k: int)
    ensures
        other_only(vanished_upto(prev, next, k)),
    decreases k,
{
    if k > 0 {
        lemma_vanished_no_lifecycle(prev, next, k - 1);
        let pid = prev[k - 1].pid;
        let first = !(exists|j: int| 0 <= j < k - 1 && (#[trigger] prev[j]).pid == pid);
        let t = if first && !has_pid(next, pid) {
            seq![EventModel::McpServerVanished { pid }]
        } else {
            seq![]
        };
        lemma_other_only_concat(vanished_upto(prev, next, k - 1), t);
    }
}

proof fn lemma_started_only(prev: Seq<SessionView>, next: Seq<SessionView>, n: int, e: EventModel)
    requires
        0 <= n <= next.len(),
        started_upto(prev, next, n).contains(e),
    ensures
        e matches EventModel::SessionStarted { session_id, agent_cli, pid } && (exists|j: int| 0 <= j < n && (#[trigger] next[j]).session_id@ == session_id)
            && last_view(prev, session_id) is None && agent_cli == last_view(next, session_id)->0.agent_cli@
            && pid == last_view(next, session_id)->0.pid,
    decreases n,
{
    let id = next[n - 1].session_id@;
    let v = last_view(next, id)->0;
    let t = if first_occurrence(next, n - 1) && last_view(prev, id) is None {
        seq![EventModel::SessionStarted { session_id: id, agent_cli: v.agent_cli@, pid: v.pid }]
    } else {
        seq![]
    };
    let a = started_upto(prev, next, n - 1);
    assert(started_upto(prev, next, n) == a + t);
    let k = choose|k: int| 0 <= k < (a + t).len() && (a + t)[k] == e;
    if k < a.len() {
        assert(a[k] == e);
        lemma_started_only(prev, next, n - 1, e);
    } else {
        assert(t[k - a.len()] == e);
        assert(next[n - 1].session_id@ == id);
    }
}

proof fn lemma_ended_only(prev: Seq<SessionView>, next: Seq<SessionView>, n: int, e: EventModel)
    requires
        0 <= n <= prev.len(),
        ended_upto(prev, next, n).contains(e),
    ensures
        e matches EventModel::SessionEnded { session_id } && (exists|j: int| 0 <= j < n && (#[trigger] prev[j]).session_id@ == session_id)
            && last_view(next, session_id) is None,
    decreases n,
{
    let id = prev[n - 1].session_id@;
    let t = if first_occurrence(prev, n - 1) && last_view(next, id) is None {
        seq![EventModel::SessionEnded { session_id: id }]
    } else {
        seq![]
    };
    let a = ended_upto(prev, next, n - 1);
    assert(ended_upto(prev, next, n) == a + t);
    let k = choose|k: int| 0 <= k < (a + t).len() && (a + t)[k] == e;
    if k < a.len() {
        assert(a[k] == e);
        lemma_ended_only(prev, next, n - 1, e);
    } else {
        assert(t[k - a.len()] == e);
        assert(prev[n - 1].session_id@ == id);
    }
}

proof fn lemma_status_only(prev: Seq<SessionView>, next: Seq<SessionView>, n: int, e: EventModel)
    requires
        0 <= n <= next.len(),
        status_upto(prev, next, n).contains(e),
    ensures
        e matches EventModel::StatusChanged { session_id, from, to } && (exists|j: int| 0 <= j < n && (#[trigger] next[j]).session_id@ == session_id)
            && last_view(prev, session_id) is Some && from == last_view(prev, session_id)->0.status@
            && to == last_view(next, session_id)->0.status@ && from != to,
    decreases n,
{
    let id = next[n - 1].session_id@;
    let nv = last_view(next, id)->0;
    let pv = last_view(prev, id)->0;
    let t = if first_occurrence(next, n - 1) && last_view(prev, id) is Some && pv.status@ != nv.status@ {
        seq![EventModel::StatusChanged { session_id: id, from: pv.status@, to: nv.status@ }]
    } else {
        seq![]
    };
    let a = status_upto(prev, next, n - 1);
    assert(status_upto(prev, next, n) == a + t);
    let k = choose|k: int| 0 <= k < (a + t).len() && (a + t)[k] == e;
    if k < a.len() {
        assert(a[k] == e);
        lemma_status_only(prev, next, n - 1, e);
    } else {
        assert(t[k - a.len()] == e);
        assert(next[n - 1].session_id@ == id);
    }
}

proof fn lemma_contains_split(a: Seq<EventModel>, b: Seq<EventModel>, x: EventModel)
    requires
        (a + b).contains(x),
    ensures
        a.contains(x) || b.contains(x),
{
    let k = choose|k: int| 0 <= k < (a + b).len() && (a + b)[k] == x;
    if k < a.len() {
        assert(a[k] == x);
    } else {
        assert(b[k - a.len()] == x);
    }
}

/// Lifecycle events come only from lifecycle changes: a `SessionStarted`
/// names a session of `next` absent from `prev`, with its agent and PID;
/// a `SessionEnded` names a session of `prev` absent from `next`; a
/// `StatusChanged` names a session of both whose status changed from
/// `from` to `to`.
pub proof fn law_lifecycle_events_only_from_changes(
    m0: DifferModel,
    prev: Snapshot,
    next: Snapshot,
    slow: bool,
    token: TokenReading,
    m1: DifferModel,
    events: Seq<EventModel>,
    e: EventModel,
)
    requires
        diff_outcome(m0, prev, next, slow, token, m1, events),
        events.contains(e),
        is_lifecycle(e),
    ensures
        e matches EventModel::SessionStarted { session_id, agent_cli, pid } ==> last_view(next.sessions@, session_id) is Some
            && last_view(prev.sessions@, session_id) is None
            && agent_cli == last_view(next.sessions@, session_id)->0.agent_cli@
            && pid == last_view(next.sessions@, session_id)->0.pid,
        e matches EventModel::SessionEnded { session_id } ==> last_view(prev.sessions@, session_id) is Some
            && last_view(next.sessions@, session_id) is None,
        e matches EventModel::StatusChanged { session_id, from, to } ==> last_view(prev.sessions@, session_id) is Some
            && last_view(next.sessions@, session_id) is Some
            && from == last_view(prev.sessions@, session_id)->0.status@
            && to == last_view(next.sessions@, session_id)->0.status@ && from != to,
{
    let p = prev.sessions@;
    let n = next.sessions@;
    let e1 = session_events(p, n);
    let m1a = purge_ended(m0, ended_ids(p, n));
    let (c, e2) = context_upto(m1a.context, n, n.len() as int);
    let m2 = DifferModel { context: c, ..m1a };
    let (m3, e3) = token_step(m2, token);
    let (m4, e4) = host_step(m3, next.host);
    let (m5, e5) = activity_upto(m4, n, n.len() as int);
    lemma_context_no_lifecycle(m1a.context, n, n.len() as int);
    lemma_activity_no_lifecycle(m4, n, n.len() as int);
    assert(no_lifecycle(e3));
    assert(no_lifecycle(e4));
    lemma_no_lifecycle_concat(e2, e3);
    lemma_no_lifecycle_concat(e2 + e3, e4);
    lemma_no_lifecycle_concat(e2 + e3 + e4, e5);
    let rest = e2 + e3 + e4 + e5;
    let fast = e1 + e2 + e3 + e4 + e5;
    assert(fast =~= e1 + rest);
    let later = events.subrange(fast.len() as int, events.len() as int);
    assert(fast_phase(m0, prev, next, token).1 == fast);
    assert(events =~= fast + later);
    if slow {
        let (r, e6) = rate_upto(m5.rate_limit, next.rate_limits@, next.rate_limits@.len() as int);
        let gone = rate_gone(r, next.rate_limits@);
        let g = cleared_events(gone_in_order(gone));
        let e8 = ports_upto(prev.orphan_ports@, next.orphan_ports@, next.orphan_ports@.len() as int);
        let e9 = mcp_appeared_upto(prev.mcp_servers@, next.mcp_servers@, next.mcp_servers@.len() as int);
        let v = vanished_upto(prev.mcp_servers@, next.mcp_servers@, prev.mcp_servers@.len() as int);
        lemma_rate_no_lifecycle(m5.rate_limit, next.rate_limits@, next.rate_limits@.len() as int);
        assert(no_lifecycle(g));
        lemma_ports_no_lifecycle(prev.orphan_ports@, next.orphan_ports@, next.orphan_ports@.len() as int);
        lemma_mcp_appeared_no_lifecycle(prev.mcp_servers@, next.mcp_servers@, next.mcp_servers@.len() as int);
        lemma_vanished_no_lifecycle(prev.mcp_servers@, next.mcp_servers@, prev.mcp_servers@.len() as int);
        lemma_no_lifecycle_concat(e6, g);
        lemma_no_lifecycle_concat(e6 + g, e8);
        lemma_no_lifecycle_concat(e6 + g + e8, e9);
        lemma_no_lifecycle_concat(e6 + g + e8 + e9, v);
        assert(later =~= e6 + g + e8 + e9 + v);
    } else {
        assert(later =~= Seq::<EventModel>::empty());
    }
    assert(no_lifecycle(later));
    lemma_contains_split(fast, later, e);
    if later.contains(e) {
        let k = choose|k: int| 0 <= k < later.len() && later[k] == e;
        assert(!is_lifecycle(later[k]));
    }
    lemma_contains_split(e1, rest, e);
    if rest.contains(e) {
        let k = choose|k: int| 0 <= k < rest.len() && rest[k] == e;
        assert(!is_lifecycle(rest[k]));
    }
    let a = started_upto(p, n, n.len() as int);
    let b = ended_upto(p, n, p.len() as int);
    let cc = status_upto(p, n, n.len() as int);
    assert(e1 == a + b + cc);
    lemma_contains_split(a + b, cc, e);
    if cc.contains(e) {
        lemma_status_only(p, n, n.len() as int, e);
        let j = choose|j: int| 0 <= j < n.len() && (#[trigger] n[j]).session_id@ == e->StatusChanged_session_id;
        lemma_last_view_some(n, j);
    } else {
        lemma_contains_split(a, b, e);
        if a.contains(e) {
            lemma_started_only(p, n, n.len() as int, e);
            let j = choose|j: int| 0 <= j < n.len() && (#[trigger] n[j]).session_id@ == e->SessionStarted_session_id;
            lemma_last_view_some(n, j);
        } else {
            lemma_ended_only(p, n, p.len() as int, e);
            let j = choose|j: int| 0 <= j < p.len() && (#[trigger] p[j]).session_id@ == e->SessionEnded_session_id;
            lemma_last_view_some(p, j);
        }
    }
}

/// The session a lifecycle event names.
pub open spec fn lifecycle_id(e: EventModel) -> Seq<char> {
    match e {
        EventModel::SessionStarted { session_id, .. } => session_id,
        EventModel::SessionEnded { session_id } => session_id,
        EventModel::StatusChanged { session_id, .. } => session_id,
        _ => seq![],
    }
}

/// Two lifecycle events of the same variant name different sessions.
pub open spec fn once_per_session(es: Seq<EventModel>) -> bool {
    forall|i: int, j: int| 0 <= i < j < es.len() && is_lifecycle(#[trigger] es[i]) && is_lifecycle(#[trigger] es[j])
        && (es[i] is SessionStarted) == (es[j] is SessionStarted) && (es[i] is SessionEnded) == (es[j] is SessionEnded)
        ==> lifecycle_id(es[i]) != lifecycle_id(es[j])
}

proof fn lemma_started_once(prev: Seq<SessionView>, next: Seq<SessionView>, n: int)
    requires
        0 <= n <= next.len(),
    ensures
        once_per_session(started_upto(prev, next, n)),
    decreases n,
{
    if n > 0 {
        lemma_started_once(prev, next, n - 1);
        let id = next[n - 1].session_id@;
        let v = last_view(next, id)->0;
        let a = started_upto(prev, next, n - 1);
        let t = if first_occurrence(next, n - 1) && last_view(prev, id) is None {
            seq![EventModel::SessionStarted { session_id: id, agent_cli: v.agent_cli@, pid: v.pid }]
        } else {
            seq![]
        };
        let all = a + t;
        assert(started_upto(prev, next, n) == all);
        assert forall|i: int, j: int| 0 <= i < j < all.len() && is_lifecycle(#[trigger] all[i]) && is_lifecycle(#[trigger] all[j])
            && (all[i] is SessionStarted) == (all[j] is SessionStarted) && (all[i] is SessionEnded) == (all[j] is SessionEnded)
            implies lifecycle_id(all[i]) != lifecycle_id(all[j]) by {
            assert(all[i] == a[i]);
            if j >= a.len() {
                assert(a.contains(a[i]));
                lemma_started_only(prev, next, n - 1, a[i]);
                assert(all[j] == t[0]);
            } else {
                assert(all[j] == a[j]);
            }
        }
    }
}

proof fn lemma_ended_once(prev: Seq<SessionView>, next: Seq<SessionView>, n: int)
    requires
        0 <= n <= prev.len(),
    ensures
        once_per_session(ended_upto(prev, next, n)),
    decreases n,
{
    if n > 0 {
        lemma_ended_once(prev, next, n - 1);
        let id = prev[n - 1].session_id@;
        let a = ended_upto(prev, next, n - 1);
        let t = if first_occurrence(prev, n - 1) && last_view(next, id) is None {
            seq![EventModel::SessionEnded { session_id: id }]
        } else {
            seq![]
        };
        let all = a + t;
        assert(ended_upto(prev, next, n) == all);
        assert forall|i: int, j: int| 0 <= i < j < all.len() && is_lifecycle(#[trigger] all[i]) && is_lifecycle(#[trigger] all[j])
            && (all[i] is SessionStarted) == (all[j] is SessionStarted) && (all[i] is SessionEnded) == (all[j] is SessionEnded)
            implies lifecycle_id(all[i]) != lifecycle_id(all[j]) by {
            assert(all[i] == a[i]);
            if j >= a.len() {
                assert(a.contains(a[i]));
                lemma_ended_only(prev, next, n - 1, a[i]);
                assert(all[j] == t[0]);
            } else {
                assert(all[j] == a[j]);
            }
        }
    }
}

proof fn lemma_status_once(prev: Seq<SessionView>, next: Seq<SessionView>, n: int)
    requires
        0 <= n <= next.len(),
    ensures
        once_per_session(status_upto(prev, next, n)),
    decreases n,
{
    if n > 0 {
        lemma_status_once(prev, next, n - 1);
        let id = next[n - 1].session_id@;
        let nv = last_view(next, id)->0;
        let pv = last_view(prev, id)->0;
        let a = status_upto(prev, next, n - 1);
        let t = if first_occurrence(next, n - 1) && last_view(prev, id) is Some && pv.status@ != nv.status@ {
            seq![EventModel::StatusChanged { session_id: id, from: pv.status@, to: nv.status@ }]
        } else {
            seq![]
        };
        let all = a + t;
        assert(status_upto(prev, next, n) == all);
        assert forall|i: int, j: int| 0 <= i < j < all.len() && is_lifecycle(#[trigger] all[i]) && is_lifecycle(#[trigger] all[j])
            && (all[i] is SessionStarted) == (all[j] is SessionStarted) && (all[i] is SessionEnded) == (all[j] is SessionEnded)
            implies lifecycle_id(all[i]) != lifecycle_id(all[j]) by {
            assert(all[i] == a[i]);
            if j >= a.len() {
                assert(a.contains(a[i]));
                lemma_status_only(prev, next, n - 1, a[i]);
                assert(all[j] == t[0]);
            } else {
                assert(all[j] == a[j]);
            }
        }
    }
}

proof fn lemma_once_concat(a: Seq<EventModel>, b: Seq<EventModel>)
    requires
        once_per_session(a),
        once_per_session(b),
        forall|i: int, j: int| 0 <= i < a.len() && 0 <= j < b.len() && is_lifecycle(#[trigger] a[i]) && is_lifecycle(#[trigger] b[j])
            ==> (a[i] is SessionStarted) != (b[j] is SessionStarted) || (a[i] is SessionEnded) != (b[j] is SessionEnded),
    ensures
        once_per_session(a + b),
{
    let all = a + b;
    assert forall|i: int, j: int| 0 <= i < j < all.len() && is_lifecycle(#[trigger] all[i]) && is_lifecycle(#[trigger] all[j])
        && (all[i] is SessionStarted) == (all[j] is SessionStarted) && (all[i] is SessionEnded) == (all[j] is SessionEnded)
        implies lifecycle_id(all[i]) != lifecycle_id(all[j]) by {
        if j < a.len() {
            assert(all[i] == a[i] && all[j] == a[j]);
        } else if i >= a.len() {
            assert(all[i] == b[i - a.len()] && all[j] == b[j - a.len()]);
        } else {
            assert(all[i] == a[i] && all[j] == b[j - a.len()]);
        }
    }
}

proof fn lemma_once_no_lifecycle(es: Seq<EventModel>)
    requires
        no_lifecycle(es),
    ensures
        once_per_session(es),
{
}

/// Each session gets at most one `SessionStarted`, one `SessionEnded`
/// and one `StatusChanged` per run of the detector.
pub proof fn law_lifecycle_events_once(
    m0: DifferModel,
    prev: Snapshot,
    next: Snapshot,
    slow: bool,
    token: TokenReading,
    m1: DifferModel,
    events: Seq<EventModel>,
)
    requires
        diff_outcome(m0, prev, next, slow, token, m1, events),
    ensures
        once_per_session(events),
{
    let p = prev.sessions@;
    let n = next.sessions@;
    let m1a = purge_ended(m0, ended_ids(p, n));
    let (c, e2) = context_upto(m1a.context, n, n.len() as int);
    let m2 = DifferModel { context: c, ..m1a };
    let (m3, e3) = token_step(m2, token);
    let (m4, e4) = host_step(m3, next.host);
    let (m5, e5) = activity_upto(m4, n, n.len() as int);
    lemma_context_no_lifecycle(m1a.context, n, n.len() as int);
    lemma_activity_no_lifecycle(m4, n, n.len() as int);
    assert(no_lifecycle(e3));
    assert(no_lifecycle(e4));
    lemma_no_lifecycle_concat(e2, e3);
    lemma_no_lifecycle_concat(e2 + e3, e4);
    lemma_no_lifecycle_concat(e2 + e3 + e4, e5);
    let rest = e2 + e3 + e4 + e5;
    let a = started_upto(p, n, n.len() as int);
    let b = ended_upto(p, n, p.len() as int);
    let cc = status_upto(p, n, n.len() as int);
    lemma_started_once(p, n, n.len() as int);
    lemma_ended_once(p, n, p.len() as int);
    lemma_status_once(p, n, n.len() as int);
    assert forall|i: int, j: int| 0 <= i < a.len() && 0 <= j < b.len() && is_lifecycle(#[trigger] a[i]) && is_lifecycle(#[trigger] b[j])
        implies (a[i] is SessionStarted) != (b[j] is SessionStarted) || (a[i] is SessionEnded) != (b[j] is SessionEnded) by {
        assert(a.contains(a[i]));
        assert(b.contains(b[j]));
        lemma_started_only(p, n, n.len() as int, a[i]);
        lemma_ended_only(p, n, p.len() as int, b[j]);
    }
    lemma_once_concat(a, b);
    assert forall|i: int, j: int| 0 <= i < (a + b).len() && 0 <= j < cc.len() && is_lifecycle(#[trigger] (a + b)[i]) && is_lifecycle(#[trigger] cc[j])
        implies ((a + b)[i] is SessionStarted) != (cc[j] is SessionStarted) || ((a + b)[i] is SessionEnded) != (cc[j] is SessionEnded) by {
        assert(cc.contains(cc[j]));
        lemma_status_only(p, n, n.len() as int, cc[j]);
        if i < a.len() {
            assert((a + b)[i] == a[i]);
            assert(a.contains(a[i]));
            lemma_started_only(p, n, n.len() as int, a[i]);
        } else {
            assert((a + b)[i] == b[i - a.len()]);
            assert(b.contains(b[i - a.len()]));
            lemma_ended_only(p, n, p.len() as int, b[i - a.len()]);
        }
    }
    lemma_once_concat(a + b, cc);
    let e1 = a + b + cc;
    assert(e1 == session_events(p, n));
    lemma_once_no_lifecycle(rest);
    lemma_once_concat(e1, rest);
    let fast = e1 + rest;
    assert(fast =~= fast_phase(m0, prev, next, token).1);
    let later = events.subrange(fast.len() as int, events.len() as int);
    assert(events =~= fast + later);
    if slow {
        let (r, e6) = rate_upto(m5.rate_limit, next.rate_limits@, next.rate_limits@.len() as int);
        let gone = rate_gone(r, next.rate_limits@);
        let g = cleared_events(gone_in_order(gone));
        let e8 = ports_upto(prev.orphan_ports@, next.orphan_ports@, next.orphan_ports@.len() as int);
        let e9 = mcp_appeared_upto(prev.mcp_servers@, next.mcp_servers@, next.mcp_servers@.len() as int);
        let v = vanished_upto(prev.mcp_servers@, next.mcp_servers@, prev.mcp_servers@.len() as int);
        lemma_rate_no_lifecycle(m5.rate_limit, next.rate_limits@, next.rate_limits@.len() as int);
        assert(no_lifecycle(g));
        lemma_ports_no_lifecycle(prev.orphan_ports@, next.orphan_ports@, next.orphan_ports@.len() as int);
        lemma_mcp_appeared_no_lifecycle(prev.mcp_servers@, next.mcp_servers@, next.mcp_servers@.len() as int);
        lemma_vanished_no_lifecycle(prev.mcp_servers@, next.mcp_servers@, prev.mcp_servers@.len() as int);
        lemma_no_lifecycle_concat(e6, g);
        lemma_no_lifecycle_concat(e6 + g, e8);
        lemma_no_lifecycle_concat(e6 + g + e8, e9);
        lemma_no_lifecycle_concat(e6 + g + e8 + e9, v);
        assert(later =~= e6 + g + e8 + e9 + v);
    } else {
        assert(later =~= Seq::<EventModel>::empty());
    }
    lemma_once_no_lifecycle(later);
    lemma_once_concat(fast, later);
}

/// The latch of one bucket after one reading.
pub open spec fn latch_next(armed: bool, r: LatchReading) -> bool {
    if !armed && r.at_or_above_fire {
        true
    } else if armed && r.below_clear {
        false
    } else {
        armed
    }
}

/// The threshold event of bucket `b` for session `id`.
pub open spec fn threshold_event(id: Seq<char>, b: int) -> EventModel {
    EventModel::ContextThreshold { session_id: id, bucket: bucket_value(b) }
}

proof fn lemma_session_context_step(m: Map<Seq<char>, BucketLatches>, sv: SessionView)
    ensures
        ({
            let (m3, e) = session_context_step(m, sv);
            let id = sv.session_id@;
            &&& forall|x: Seq<char>| x != id ==> m3.get(x) == m.get(x)
            &&& forall|b: int| 0 <= b < 3 ==> ctx_armed(m3, id, b) == latch_next(ctx_armed(m, id, b), reading_of(sv.context, b))
            &&& forall|b: int| 0 <= b < 3 ==> (e.contains(threshold_event(id, b)) <==> (!ctx_armed(m, id, b)
                && reading_of(sv.context, b).at_or_above_fire))
            &&& forall|k: int| 0 <= k < e.len() ==> ((#[trigger] e[k]) is ContextThreshold && e[k]->ContextThreshold_session_id == id)
        }),
{
    let id = sv.session_id@;
    law_context_bucket_hysteresis(m, sv, 0);
    let (m1, e1) = bucket_step(m, sv, 0);
    law_context_bucket_hysteresis(m1, sv, 1);
    let (m2, e2) = bucket_step(m1, sv, 1);
    law_context_bucket_hysteresis(m2, sv, 2);
    let (m3, e3) = bucket_step(m2, sv, 2);
    let e = e1 + e2 + e3;
    assert forall|k: int| 0 <= k < e.len() implies ((#[trigger] e[k]) is ContextThreshold && e[k]->ContextThreshold_session_id == id) by {
        if k < e1.len() {
            assert(e[k] == e1[k]);
        } else if k < e1.len() + e2.len() {
            assert(e[k] == e2[k - e1.len()]);
        } else {
            assert(e[k] == e3[k - e1.len() - e2.len()]);
        }
    }
    assert forall|b: int| 0 <= b < 3 implies (e.contains(threshold_event(id, b)) <==> (!ctx_armed(m, id, b)
        && reading_of(sv.context, b).at_or_above_fire)) by {
        let x = threshold_event(id, b);
        if e.contains(x) {
            let k = choose|k: int| 0 <= k < e.len() && e[k] == x;
            if k < e1.len() {
                assert(e[k] == e1[k]);
            } else if k < e1.len() + e2.len() {
                assert(e[k] == e2[k - e1.len()]);
            } else {
                assert(e[k] == e3[k - e1.len() - e2.len()]);
            }
        }
        if !ctx_armed(m, id, b) && reading_of(sv.context, b).at_or_above_fire {
            if b == 0 {
                assert(e[0] == x);
            } else if b == 1 {
                assert(e[e1.len() as int] == x);
            } else {
                assert(e[(e1.len() + e2.len()) as int] == x);
            }
        }
    }
}

proof fn lemma_context_upto_one(m: Map<Seq<char>, BucketLatches>, ss: Seq<SessionView>, j: int, k: int)
    requires
        0 <= j <= ss.len(),
        0 <= k < ss.len(),
        forall|a: int, c: int| 0 <= a < c < ss.len() ==> (#[trigger] ss[a]).session_id@ != (#[trigger] ss[c]).session_id@,
    ensures
        ({
            let id = ss[k].session_id@;
            let (mj, ej) = context_upto(m, ss, j);
            &&& j <= k ==> mj.get(id) == m.get(id) && forall|b: int| 0 <= b < 3 ==> !ej.contains(threshold_event(id, b))
            &&& j > k ==> forall|b: int| 0 <= b < 3 ==> ctx_armed(mj, id, b) == latch_next(ctx_armed(m, id, b), reading_of(ss[k].context, b))
                && (ej.contains(threshold_event(id, b)) <==> (!ctx_armed(m, id, b) && reading_of(ss[k].context, b).at_or_above_fire))
        }),
    decreases j,
{
    if j > 0 {
        lemma_context_upto_one(m, ss, j - 1, k);
        let id = ss[k].session_id@;
        let (m1, e1) = context_upto(m, ss, j - 1);
        let sv = ss[j - 1];
        lemma_session_context_step(m1, sv);
        let (m2, e2) = session_context_step(m1, sv);
        if j - 1 != k {
            assert(sv.session_id@ != id);
        }
        assert forall|b: int| 0 <= b < 3 implies ((e1 + e2).contains(threshold_event(id, b)) <==> (e1.contains(threshold_event(id, b))
            || (j - 1 == k && e2.contains(threshold_event(id, b))))) by {
            let x = threshold_event(id, b);
            if (e1 + e2).contains(x) {
                lemma_contains_split(e1, e2, x);
                if e2.contains(x) && j - 1 != k {
                    let q = choose|q: int| 0 <= q < e2.len() && e2[q] == x;
                    assert(e2[q] is ContextThreshold && e2[q]->ContextThreshold_session_id == sv.session_id@);
                }
            }
            if e1.contains(x) || (j - 1 == k && e2.contains(x)) {
                lemma_contains_append(e1, e2, x);
            }
        }
        if j - 1 == k {
            assert forall|b: int| 0 <= b < 3 implies ctx_armed(m1, id, b) == ctx_armed(m, id, b) by {}
        }
    }
}

proof fn lemma_activity_keeps_context(m: DifferModel, ss: Seq<SessionView>, n: int)
    ensures
        activity_upto(m, ss, n).0.context == m.context,
    decreases n,
{
    if n > 0 {
        lemma_activity_keeps_context(m, ss, n - 1);
    }
}

/// Context thresholds over one run of the detector, for a session `k` of
/// `next` (session ids distinct within `next`): the event of bucket `b`
/// is emitted exactly when the reading reaches the fire threshold while
/// the bucket was disarmed, and the bucket's latch moves as the
/// hysteresis says (armed by a fire, disarmed below the clear threshold).
pub proof fn law_context_threshold_per_run(
    m0: DifferModel,
    prev: Snapshot,
    next: Snapshot,
    slow: bool,
    token: TokenReading,
    m1: DifferModel,
    events: Seq<EventModel>,
    k: int,
    b: int,
)
    requires
        diff_outcome(m0, prev, next, slow, token, m1, events),
        0 <= k < next.sessions@.len(),
        0 <= b < 3,
        forall|a: int, c: int| 0 <= a < c < next.sessions@.len() ==> (#[trigger] next.sessions@[a]).session_id@
            != (#[trigger] next.sessions@[c]).session_id@,
    ensures
        ({
            let id = next.sessions@[k].session_id@;
            let r = reading_of(next.sessions@[k].context, b);
            &&& events.contains(threshold_event(id, b)) <==> (!ctx_armed(m0.context, id, b) && r.at_or_above_fire)
            &&& ctx_armed(m1.context, id, b) == latch_next(ctx_armed(m0.context, id, b), r)
        }),
{
    let p = prev.sessions@;
    let n = next.sessions@;
    let id = n[k].session_id@;
    let x = threshold_event(id, b);
    let gone = ended_ids(p, n);
    lemma_last_view_some(n, k);
    assert(!gone.contains(id));
    let m1a = purge_ended(m0, gone);
    assert(m1a.context.get(id) == m0.context.get(id));
    assert(ctx_armed(m1a.context, id, b) == ctx_armed(m0.context, id, b));
    lemma_context_upto_one(m1a.context, n, n.len() as int, k);
    let e1 = session_events(p, n);
    let (c, e2) = context_upto(m1a.context, n, n.len() as int);
    let m2 = DifferModel { context: c, ..m1a };
    let (m3, e3) = token_step(m2, token);
    let (m4, e4) = host_step(m3, next.host);
    let (m5, e5) = activity_upto(m4, n, n.len() as int);
    lemma_activity_no_lifecycle(m4, n, n.len() as int);
    assert(other_only(e3));
    assert(other_only(e4));
    lemma_other_only_concat(e3, e4);
    lemma_other_only_concat(e3 + e4, e5);
    let tail = e3 + e4 + e5;
    let fast = e1 + e2 + e3 + e4 + e5;
    assert(fast =~= e1 + e2 + tail);
    assert(fast_phase(m0, prev, next, token).1 == fast);
    let later = events.subrange(fast.len() as int, events.len() as int);
    assert(events =~= fast + later);
    if slow {
        let (r, e6) = rate_upto(m5.rate_limit, next.rate_limits@, next.rate_limits@.len() as int);
        let g = cleared_events(gone_in_order(rate_gone(r, next.rate_limits@)));
        let e8 = ports_upto(prev.orphan_ports@, next.orphan_ports@, next.orphan_ports@.len() as int);
        let e9 = mcp_appeared_upto(prev.mcp_servers@, next.mcp_servers@, next.mcp_servers@.len() as int);
        let v = vanished_upto(prev.mcp_servers@, next.mcp_servers@, prev.mcp_servers@.len() as int);
        lemma_rate_no_lifecycle(m5.rate_limit, next.rate_limits@, next.rate_limits@.len() as int);
        assert(other_only(g));
        lemma_ports_no_lifecycle(prev.orphan_ports@, next.orphan_ports@, next.orphan_ports@.len() as int);
        lemma_mcp_appeared_no_lifecycle(prev.mcp_servers@, next.mcp_servers@, next.mcp_servers@.len() as int);
        lemma_vanished_no_lifecycle(prev.mcp_servers@, next.mcp_servers@, prev.mcp_servers@.len() as int);
        lemma_other_only_concat(e6, g);
        lemma_other_only_concat(e6 + g, e8);
        lemma_other_only_concat(e6 + g + e8, e9);
        lemma_other_only_concat(e6 + g + e8 + e9, v);
        assert(later =~= e6 + g + e8 + e9 + v);
        assert(m1.context == m5.context);
    } else {
        assert(later =~= Seq::<EventModel>::empty());
    }
    lemma_activity_keeps_context(m4, n, n.len() as int);
    assert(m5.context == c);
    if events.contains(x) {
        lemma_contains_split(fast, later, x);
        if later.contains(x) {
            let q = choose|q: int| 0 <= q < later.len() && later[q] == x;
            assert(!(later[q] is ContextThreshold));
        }
        lemma_contains_split(e1 + e2, tail, x);
        if tail.contains(x) {
            let q = choose|q: int| 0 <= q < tail.len() && tail[q] == x;
            assert(!(tail[q] is ContextThreshold));
        }
        lemma_contains_split(e1, e2, x);
        if e1.contains(x) {
            let a = started_upto(p, n, n.len() as int);
            let bb = ended_upto(p, n, p.len() as int);
            let cc = status_upto(p, n, n.len() as int);
            assert(e1 == a + bb + cc);
            lemma_contains_split(a + bb, cc, x);
            if cc.contains(x) {
                lemma_status_only(p, n, n.len() as int, x);
            } else {
                lemma_contains_split(a, bb, x);
                if a.contains(x) {
                    lemma_started_only(p, n, n.len() as int, x);
                } else {
                    lemma_ended_only(p, n, p.len() as int, x);
                }
            }
        }
    }
    if e2.contains(x) {
        lemma_contains_append(e1, e2, x);
        lemma_contains_append(e1 + e2, tail, x);
        lemma_contains_append(fast, later, x);
    }
}

/// A bucket's latch after the readings `rs[..i]`, from `armed`.
pub open spec fn armed_after(armed: bool, rs: Seq<LatchReading>, i: int) -> bool
    decreases i,
{
    if i <= 0 {
        armed
    } else {
        latch_next(armed_after(armed, rs, i - 1), rs[i - 1])
    }
}

/// Context thresholds over a run of detector calls in which session `id`
/// is present in every new snapshot (at index `ks[i]`, ids distinct
/// within each snapshot): call `i` emits bucket `b`'s event exactly when
/// its reading reaches the fire threshold while the bucket is disarmed,
/// the bucket being armed by a fire and disarmed only by a reading below
/// its clear threshold (from a fresh detector, disarmed at the start).
pub proof fn law_context_threshold_over_calls(
    ms: Seq<DifferModel>,
    snaps: Seq<Snapshot>,
    slows: Seq<bool>,
    tokens: Seq<TokenReading>,
    evs: Seq<Seq<EventModel>>,
    ks: Seq<int>,
    id: Seq<char>,
    b: int,
)
    requires
        0 <= b < 3,
        ms.len() == evs.len() + 1,
        snaps.len() == evs.len() + 1,
        slows.len() == evs.len(),
        tokens.len() == evs.len(),
        ks.len() == evs.len(),
        forall|i: int| 0 <= i < evs.len() ==> #[trigger] diff_outcome(ms[i], snaps[i], snaps[i + 1], slows[i], tokens[i], ms[i + 1], evs[i]),
        forall|i: int| 0 <= i < evs.len() ==> 0 <= #[trigger] ks[i] < snaps[i + 1].sessions@.len() && snaps[i + 1].sessions@[ks[i]].session_id@ == id,
        forall|i: int, a: int, c: int| 0 <= i < evs.len() && 0 <= a < c < snaps[i + 1].sessions@.len() ==> (#[trigger] snaps[i + 1].sessions@[a]).session_id@
            != (#[trigger] snaps[i + 1].sessions@[c]).session_id@,
    ensures
        ({
            let rs = Seq::new(evs.len(), |i: int| reading_of(snaps[i + 1].sessions@[ks[i]].context, b));
            let armed0 = ctx_armed(ms[0].context, id, b);
            forall|i: int| 0 <= i < evs.len() ==> ((#[trigger] evs[i]).contains(threshold_event(id, b)) <==> (!armed_after(armed0, rs, i)
                && rs[i].at_or_above_fire))
        }),
{
    let rs = Seq::new(evs.len(), |i: int| reading_of(snaps[i + 1].sessions@[ks[i]].context, b));
    let armed0 = ctx_armed(ms[0].context, id, b);
    lemma_armed_along(ms, snaps, slows, tokens, evs, ks, id, b, evs.len() as int);
    assert forall|i: int| 0 <= i < evs.len() implies ((#[trigger] evs[i]).contains(threshold_event(id, b)) <==> (!armed_after(armed0, rs, i)
        && rs[i].at_or_above_fire)) by {
        lemma_armed_along(ms, snaps, slows, tokens, evs, ks, id, b, i);
        assert(diff_outcome(ms[i], snaps[i], snaps[i + 1], slows[i], tokens[i], ms[i + 1], evs[i]));
        law_context_threshold_per_run(ms[i], snaps[i], snaps[i + 1], slows[i], tokens[i], ms[i + 1], evs[i], ks[i], b);
    }
}

proof fn lemma_armed_along(
    ms: Seq<DifferModel>,
    snaps: Seq<Snapshot>,
    slows: Seq<bool>,
    tokens: Seq<TokenReading>,
    evs: Seq<Seq<EventModel>>,
    ks: Seq<int>,
    id: Seq<char>,
    b: int,
    n: int,
)
    requires
        0 <= b < 3,
        0 <= n <= evs.len(),
        ms.len() == evs.len() + 1,
        snaps.len() == evs.len() + 1,
        slows.len() == evs.len(),
        tokens.len() == evs.len(),
        ks.len() == evs.len(),
        forall|i: int| 0 <= i < evs.len() ==> #[trigger] diff_outcome(ms[i], snaps[i], snaps[i + 1], slows[i], tokens[i], ms[i + 1], evs[i]),
        forall|i: int| 0 <= i < evs.len() ==> 0 <= #[trigger] ks[i] < snaps[i + 1].sessions@.len() && snaps[i + 1].sessions@[ks[i]].session_id@ == id,
        forall|i: int, a: int, c: int| 0 <= i < evs.len() && 0 <= a < c < snaps[i + 1].sessions@.len() ==> (#[trigger] snaps[i + 1].sessions@[a]).session_id@
            != (#[trigger] snaps[i + 1].sessions@[c]).session_id@,
    ensures
        ctx_armed(ms[n].context, id, b) == armed_after(
            ctx_armed(ms[0].context, id, b),
            Seq::new(evs.len(), |i: int| reading_of(snaps[i + 1].sessions@[ks[i]].context, b)),
            n,
        ),
    decreases n,
{
    if n > 0 {
        lemma_armed_along(ms, snaps, slows, tokens, evs, ks, id, b, n - 1);
        let i = n - 1;
        assert(diff_outcome(ms[i], snaps[i], snaps[i + 1], slows[i], tokens[i], ms[i + 1], evs[i]));
        assert(0 <= ks[i] < snaps[i + 1].sessions@.len());
        assert forall|a: int, c: int| 0 <= a < c < snaps[i + 1].sessions@.len() implies (#[trigger] snaps[i + 1].sessions@[a]).session_id@
            != (#[trigger] snaps[i + 1].sessions@[c]).session_id@ by {}
        law_context_threshold_per_run(ms[i], snaps[i], snaps[i + 1], slows[i], tokens[i], ms[i + 1], evs[i], ks[i], b);
    }
}

/// The detector is deterministic: from equal states and equal inputs,
/// two runs give the same events in the same order and the same next
/// state.
pub proof fn law_diff_deterministic(
    m0: DifferModel,
    prev: Snapshot,
    next: Snapshot,
    slow: bool,
    token: TokenReading,
    m1: DifferModel,
    e1: Seq<EventModel>,
    m2: DifferModel,
    e2: Seq<EventModel>,
)
    requires
        diff_outcome(m0, prev, next, slow, token, m1, e1),
        diff_outcome(m0, prev, next, slow, token, m2, e2),
    ensures
        m1 == m2,
        e1 == e2,
{
}

/// Slow-tier events (rate limits, orphan ports, MCP servers) are emitted
/// only on ticks where the slow collector branch ran.
pub proof fn law_no_slow_events_on_fast_tick(
    m0: DifferModel,
    prev: Snapshot,
    next: Snapshot,
    token: TokenReading,
    m_end: DifferModel,
    events: Seq<EventModel>,
)
    requires
        diff_outcome(m0, prev, next, false, token, m_end, events),
    ensures
        forall|i: int| 0 <= i < events.len() ==> crate::events::tier_of(#[trigger] events[i]) == crate::events::EventTier::Fast,
{
    let ps = prev.sessions@;
    let ns = next.sessions@;
    lemma_started_fast(ps, ns, ns.len() as int);
    lemma_ended_fast(ps, ns, ps.len() as int);
    lemma_status_fast(ps, ns, ns.len() as int);
    let e1 = session_events(ps, ns);
    lemma_all_fast_concat(started_upto(ps, ns, ns.len() as int), ended_upto(ps, ns, ps.len() as int));
    lemma_all_fast_concat(started_upto(ps, ns, ns.len() as int) + ended_upto(ps, ns, ps.len() as int), status_upto(ps, ns, ns.len() as int));
    let m1 = purge_ended(m0, ended_ids(ps, ns));
    let (c, e2) = context_upto(m1.context, ns, ns.len() as int);
    lemma_context_fast(m1.context, ns, ns.len() as int);
    let m2 = DifferModel { context: c, ..m1 };
    let (m3, e3) = token_step(m2, token);
    let (m4, e4) = host_step(m3, next.host);
    let (m5, e5) = activity_upto(m4, ns, ns.len() as int);
    lemma_activity_fast(m4, ns, ns.len() as int);
    lemma_all_fast_concat(e1, e2);
    lemma_all_fast_concat(e1 + e2, e3);
    lemma_all_fast_concat(e1 + e2 + e3, e4);
    lemma_all_fast_concat(e1 + e2 + e3 + e4, e5);
}

proof fn lemma_context_keys(m: Map<Seq<char>, BucketLatches>, s: Seq<SessionView>, n: int, id: Seq<char>)
    requires
        0 <= n <= s.len(),
        forall|j: int| 0 <= j < n ==> (#[trigger] s[j]).session_id@ != id,
    ensures
        context_upto(m, s, n).0.get(id) == m.get(id),
    decreases n,
{
    if n > 0 {
        lemma_context_keys(m, s, n - 1, id);
    }
}

proof fn lemma_activity_keys(m: DifferModel, s: Seq<SessionView>, n: int, id: Seq<char>)
    requires
        0 <= n <= s.len(),
        forall|j: int| 0 <= j < n ==> (#[trigger] s[j]).session_id@ != id,
    ensures
        activity_upto(m, s, n).0.tool_tail_len.get(id) == m.tool_tail_len.get(id),
        activity_upto(m, s, n).0.compaction_seen.get(id) == m.compaction_seen.get(id),
        activity_upto(m, s, n).0.subagents_seen.get(id) == m.subagents_seen.get(id),
        activity_upto(m, s, n).0.context == m.context,
    decreases n,
{
    if n > 0 {
        lemma_activity_keys(m, s, n - 1, id);
    }
}

/// When a session ends, everything the detector tracked for it (context
/// latches, tool-call tail length, compaction count, reported subagents)
/// is forgotten.
pub proof fn law_ended_session_forgotten(
    m0: DifferModel,
    prev: Snapshot,
    next: Snapshot,
    slow: bool,
    token: TokenReading,
    m_end: DifferModel,
    events: Seq<EventModel>,
    id: Seq<char>,
)
    requires
        diff_outcome(m0, prev, next, slow, token, m_end, events),
        last_view(prev.sessions@, id) is Some,
        last_view(next.sessions@, id) is None,
    ensures
        m_end.context.get(id) is None,
        m_end.tool_tail_len.get(id) is None,
        m_end.compaction_seen.get(id) is None,
        m_end.subagents_seen.get(id) is None,
{
    let ps = prev.sessions@;
    let ns = next.sessions@;
    assert forall|j: int| 0 <= j < ns.len() implies (#[trigger] ns[j]).session_id@ != id by {
        lemma_last_view_none(ns, id, j);
    }
    let gone = ended_ids(ps, ns);
    assert(gone.contains(id));
    let m1 = purge_ended(m0, gone);
    let (c, e2) = context_upto(m1.context, ns, ns.len() as int);
    lemma_context_keys(m1.context, ns, ns.len() as int, id);
    let m2 = DifferModel { context: c, ..m1 };
    let (m3, e3) = token_step(m2, token);
    let (m4, e4) = host_step(m3, next.host);
    lemma_activity_keys(m4, ns, ns.len() as int, id);
}

/// Hysteresis of one context bucket: it fires exactly when reached while
/// disarmed, then stays armed until a reading below its clear threshold;
/// the step touches neither the other buckets nor other sessions.
pub proof fn law_context_bucket_hysteresis(m: Map<Seq<char>, BucketLatches>, s: SessionView, b: int)
    requires
        0 <= b < 3,
    ensures
        ({
            let id = s.session_id@;
            let r = reading_of(s.context, b);
            let armed = ctx_armed(m, id, b);
            let (m1, e) = bucket_step(m, s, b);
            &&& (e.len() > 0 <==> (!armed && r.at_or_above_fire))
            &&& ctx_armed(m1, id, b) == (if !armed && r.at_or_above_fire {
                true
            } else if armed && r.below_clear {
                false
            } else {
                armed
            })
            &&& forall|b2: int| 0 <= b2 < 3 && b2 != b ==> ctx_armed(m1, id, b2) == ctx_armed(m, id, b2)
            &&& forall|id2: Seq<char>| id2 != id ==> m1.get(id2) == m.get(id2)
        }),
{
}


/// One context bucket stepped over successive readings `ss`.
pub open spec fn bucket_run(m: Map<Seq<char>, BucketLatches>, ss: Seq<SessionView>, b: int) -> (Map<Seq<char>, BucketLatches>, Seq<EventModel>)
    decreases ss.len(),
{
    if ss.len() == 0 {
        (m, seq![])
    } else {
        let (m1, e1) = bucket_run(m, ss.drop_last(), b);
        let (m2, e2) = bucket_step(m1, ss.last(), b);
        (m2, e1 + e2)
    }
}

/// Hysteresis across calls: while the readings of one session never drop
/// below a bucket's clear threshold, the bucket fires at most once, and
/// not at all when it was already armed; once fired it stays armed.
pub proof fn law_context_bucket_fires_once_per_excursion(m: Map<Seq<char>, BucketLatches>, ss: Seq<SessionView>, id: Seq<char>, b: int)
    requires
        0 <= b < 3,
        forall|k: int| 0 <= k < ss.len() ==> (#[trigger] ss[k]).session_id@ == id,
        forall|k: int| 0 <= k < ss.len() ==> !reading_of((#[trigger] ss[k]).context, b).below_clear,
    ensures
        bucket_run(m, ss, b).1.len() <= 1,
        ctx_armed(m, id, b) ==> bucket_run(m, ss, b).1.len() == 0 && ctx_armed(bucket_run(m, ss, b).0, id, b),
        bucket_run(m, ss, b).1.len() == 1 ==> ctx_armed(bucket_run(m, ss, b).0, id, b),
    decreases ss.len(),
{
    if ss.len() > 0 {
        let t = ss.drop_last();
        assert forall|k: int| 0 <= k < t.len() implies (#[trigger] t[k]).session_id@ == id by {
            assert(t[k] == ss[k]);
        }
        assert forall|k: int| 0 <= k < t.len() implies !reading_of((#[trigger] t[k]).context, b).below_clear by {
            assert(t[k] == ss[k]);
        }
        law_context_bucket_fires_once_per_excursion(m, t, id, b);
        let (m1, e1) = bucket_run(m, t, b);
        assert(ss.last() == ss[ss.len() - 1]);
        law_context_bucket_hysteresis(m1, ss.last(), b);
    }
}

/// Quota latch of one provider: `RateLimited` is emitted only on the way
/// into the limited state and `RateLimitCleared` only on the way out;
/// afterwards the latch holds whether the provider is limited, and no
/// other provider's latch moves.
pub proof fn law_quota_latch(m: Map<Seq<char>, bool>, rl: RateLimitView)
    ensures
        ({
            let p = rl.source@;
            let was = m.get(p) == Some(true);
            let (m1, e) = rate_step(m, rl);
            &&& (e.len() > 0 <==> rl.limited != was)
            &&& (rl.limited && !was ==> e == seq![EventModel::RateLimited { provider: p, resets_at_ms: resets_ms(rl) }])
            &&& (!rl.limited && was ==> e == seq![EventModel::RateLimitCleared { provider: p }])
            &&& (m1.get(p) == Some(true)) == rl.limited
            &&& forall|q: Seq<char>| q != p ==> m1.get(q) == m.get(q)
        }),
{
}

/// Host-load latch: `HostLoadHigh` fires only when the load reaches the
/// fire threshold while disarmed, and the latch re-arms only below the
/// clear threshold; without a host reading nothing changes.
pub proof fn law_host_load_latch(m: DifferModel, h: Option<HostReading>)
    ensures
        ({
            let (m1, e) = host_step(m, h);
            match h {
                None => m1 == m && e.len() == 0,
                Some(r) => {
                    &&& (e.len() > 0 <==> (!m.host_load_armed && r.latch.at_or_above_fire))
                    &&& m1.host_load_armed == (if !m.host_load_armed && r.latch.at_or_above_fire {
                        true
                    } else if m.host_load_armed && r.latch.below_clear {
                        false
                    } else {
                        m.host_load_armed
                    })
                    &&& m1.context == m.context
                    &&& m1.rate_limit == m.rate_limit
                },
            }
        }),
{
}
/// The `ToolCalled` event of one tail item.
pub open spec fn tool_called_of(id: Seq<char>, tc: ToolCallView) -> EventModel {
    EventModel::ToolCalled { session_id: id, tool: tc.name@, arg: tc.arg@ }
}

/// A tick reports exactly the tool calls beyond the last seen tail
/// length, oldest first, each with its own name and argument: the tail
/// items at indices `seen .. len`. When the tail did not grow, nothing.
pub proof fn law_tool_events_are_new_tail(s: SessionView, seen: int)
    requires
        0 <= seen,
    ensures
        seen <= s.tool_calls@.len() ==> tool_events(s, seen) == s.tool_calls@.subrange(seen, s.tool_calls@.len() as int).map_values(
            |tc: ToolCallView| tool_called_of(s.session_id@, tc),
        ),
        seen >= s.tool_calls@.len() ==> tool_events(s, seen).len() == 0,
{
    if seen <= s.tool_calls@.len() {
        assert(tool_events(s, seen) =~= s.tool_calls@.subrange(seen, s.tool_calls@.len() as int).map_values(
            |tc: ToolCallView| tool_called_of(s.session_id@, tc),
        ));
    }
}

/// Over two ticks of a growing tail (the first tick's tail a prefix of
/// the second's), the tool calls reported are each item past the first
/// seen length exactly once, in order; after a tick the seen length is
/// the tail's length.
pub proof fn law_tool_events_over_two_ticks(m: DifferModel, s1: SessionView, s2: SessionView, seen: int)
    requires
        s1.session_id@ == s2.session_id@,
        0 <= seen <= s1.tool_calls@.len() <= s2.tool_calls@.len(),
        s1.tool_calls@ == s2.tool_calls@.subrange(0, s1.tool_calls@.len() as int),
    ensures
        tool_events(s1, seen) + tool_events(s2, s1.tool_calls@.len() as int) == s2.tool_calls@.subrange(seen, s2.tool_calls@.len() as int).map_values(
            |tc: ToolCallView| tool_called_of(s2.session_id@, tc),
        ),
        activity_step(m, s1).0.tool_tail_len[s1.session_id@] == s1.tool_calls.len(),
{
    law_tool_events_are_new_tail(s1, seen);
    law_tool_events_are_new_tail(s2, s1.tool_calls@.len() as int);
    let f = |tc: ToolCallView| tool_called_of(s2.session_id@, tc);
    let a = s1.tool_calls@.subrange(seen, s1.tool_calls@.len() as int);
    let b = s2.tool_calls@.subrange(s1.tool_calls@.len() as int, s2.tool_calls@.len() as int);
    assert(a =~= s2.tool_calls@.subrange(seen, s1.tool_calls@.len() as int));
    assert(a + b =~= s2.tool_calls@.subrange(seen, s2.tool_calls@.len() as int));
    assert((a + b).map_values(f) =~= a.map_values(f) + b.map_values(f));
}
proof fn lemma_ports_contains(prev: Seq<OrphanPortView>, next: Seq<OrphanPortView>, n: int, port: u16, pid: u32)
    requires
        0 <= n <= next.len(),
    ensures
        ports_upto(prev, next, n).contains(EventModel::OrphanPortAppeared { port, prior_pid: pid }) <==> ((exists|j: int|
            0 <= j < n && (#[trigger] next[j]).port == port && next[j].pid == pid) && !has_port(prev, port)),
    decreases n,
{
    let x = EventModel::OrphanPortAppeared { port, prior_pid: pid };
    if n > 0 {
        lemma_ports_contains(prev, next, n - 1, port, pid);
        let a = ports_upto(prev, next, n - 1);
        let t = if !has_port(prev, next[n - 1].port) {
            seq![EventModel::OrphanPortAppeared { port: next[n - 1].port, prior_pid: next[n - 1].pid }]
        } else {
            seq![]
        };
        assert(ports_upto(prev, next, n) == a + t);
        if (a + t).contains(x) {
            lemma_contains_split(a, t, x);
        }
        if (exists|j: int| 0 <= j < n && (#[trigger] next[j]).port == port && next[j].pid == pid) && !has_port(prev, port) {
            let j = choose|j: int| 0 <= j < n && (#[trigger] next[j]).port == port && next[j].pid == pid;
            if j == n - 1 {
                assert(t[0] == x);
            }
            lemma_contains_append(a, t, x);
        }
    } else {
        assert(ports_upto(prev, next, n) =~= Seq::<EventModel>::empty());
    }
}

/// An orphan port is reported, with its prior PID, exactly when the new
/// snapshot lists it and the previous one did not.
pub proof fn law_orphan_port_appeared(prev: Seq<OrphanPortView>, next: Seq<OrphanPortView>, port: u16, pid: u32)
    ensures
        ports_upto(prev, next, next.len() as int).contains(EventModel::OrphanPortAppeared { port, prior_pid: pid }) <==> ((exists|j: int|
            0 <= j < next.len() && (#[trigger] next[j]).port == port && next[j].pid == pid) && !has_port(prev, port)),
{
    lemma_ports_contains(prev, next, next.len() as int, port, pid);
}

proof fn lemma_mcp_contains(prev: Seq<McpServerView>, next: Seq<McpServerView>, n: int, pid: u32, cli: Seq<char>)
    requires
        0 <= n <= next.len(),
    ensures
        mcp_appeared_upto(prev, next, n).contains(EventModel::McpServerAppeared { pid, parent_cli: cli }) <==> ((exists|j: int|
            0 <= j < n && (#[trigger] next[j]).pid == pid && next[j].parent_cli@ == cli) && !has_pid(prev, pid)),
    decreases n,
{
    let x = EventModel::McpServerAppeared { pid, parent_cli: cli };
    if n > 0 {
        lemma_mcp_contains(prev, next, n - 1, pid, cli);
        let a = mcp_appeared_upto(prev, next, n - 1);
        let t = if !has_pid(prev, next[n - 1].pid) {
            seq![EventModel::McpServerAppeared { pid: next[n - 1].pid, parent_cli: next[n - 1].parent_cli@ }]
        } else {
            seq![]
        };
        assert(mcp_appeared_upto(prev, next, n) == a + t);
        if (a + t).contains(x) {
            lemma_contains_split(a, t, x);
        }
        if (exists|j: int| 0 <= j < n && (#[trigger] next[j]).pid == pid && next[j].parent_cli@ == cli) && !has_pid(prev, pid) {
            let j = choose|j: int| 0 <= j < n && (#[trigger] next[j]).pid == pid && next[j].parent_cli@ == cli;
            if j == n - 1 {
                assert(t[0] == x);
            }
            lemma_contains_append(a, t, x);
        }
    } else {
        assert(mcp_appeared_upto(prev, next, n) =~= Seq::<EventModel>::empty());
    }
}

/// An MCP server is reported appeared, with its parent CLI, exactly when
/// the new snapshot lists its PID and the previous one did not.
pub proof fn law_mcp_server_appeared(prev: Seq<McpServerView>, next: Seq<McpServerView>, pid: u32, cli: Seq<char>)
    ensures
        mcp_appeared_upto(prev, next, next.len() as int).contains(EventModel::McpServerAppeared { pid, parent_cli: cli }) <==> ((exists|j: int|
            0 <= j < next.len() && (#[trigger] next[j]).pid == pid && next[j].parent_cli@ == cli) && !has_pid(prev, pid)),
{
    lemma_mcp_contains(prev, next, next.len() as int, pid, cli);
}

/// A compaction count that grew by `k` gives exactly `k` compaction
/// events for the session; one that did not grow gives none.
pub proof fn law_compactions_counted(id: Seq<char>, cur: u32, seen: u32)
    ensures
        compaction_events(id, cur, seen).len() == (if cur > seen { cur - seen } else { 0 }),
        forall|k: int| 0 <= k < compaction_events(id, cur, seen).len() ==> #[trigger] compaction_events(id, cur, seen)[k]
            == (EventModel::CompactionDetected { session_id: id }),
{
}

proof fn lemma_subagents(seen: Set<Seq<char>>, id: Seq<char>, names: Seq<String>, n: int, nm: Seq<char>)
    requires
        0 <= n <= names.len(),
    ensures
        subagents_upto(seen, id, names, n).1.contains(EventModel::SubagentSpawned { session_id: id, name: nm }) <==> ((exists|j: int|
            0 <= j < n && (#[trigger] names[j])@ == nm) && !seen.contains(nm)),
        subagents_upto(seen, id, names, n).0.contains(nm) <==> (seen.contains(nm) || exists|j: int| 0 <= j < n && (#[trigger] names[j])@ == nm),
        forall|a: int, c: int| 0 <= a < c < subagents_upto(seen, id, names, n).1.len() ==> #[trigger] subagents_upto(seen, id, names, n).1[a]
            != #[trigger] subagents_upto(seen, id, names, n).1[c],
        forall|a: int| 0 <= a < subagents_upto(seen, id, names, n).1.len() ==> (#[trigger] subagents_upto(seen, id, names, n).1[a]) is SubagentSpawned
            && subagents_upto(seen, id, names, n).0.contains(subagents_upto(seen, id, names, n).1[a]->SubagentSpawned_name)
            && subagents_upto(seen, id, names, n).1[a]->SubagentSpawned_session_id == id,
    decreases n,
{
    let x = EventModel::SubagentSpawned { session_id: id, name: nm };
    if n > 0 {
        lemma_subagents(seen, id, names, n - 1, nm);
        lemma_subagents(seen, id, names, n - 1, names[n - 1]@);
        let (s1, e1) = subagents_upto(seen, id, names, n - 1);
        let m = names[n - 1]@;
        if !s1.contains(m) {
            let e = e1.push(EventModel::SubagentSpawned { session_id: id, name: m });
            assert(e == e1 + seq![EventModel::SubagentSpawned { session_id: id, name: m }]);
            if e.contains(x) {
                lemma_contains_split(e1, seq![EventModel::SubagentSpawned { session_id: id, name: m }], x);
            }
            if (exists|j: int| 0 <= j < n && (#[trigger] names[j])@ == nm) && !seen.contains(nm) {
                if m == nm {
                    assert(e[e.len() - 1] == x);
                } else {
                    let j = choose|j: int| 0 <= j < n && (#[trigger] names[j])@ == nm;
                    assert(j < n - 1);
                }
                lemma_contains_append(e1, seq![EventModel::SubagentSpawned { session_id: id, name: m }], x);
            }
            assert forall|a: int, c: int| 0 <= a < c < e.len() implies #[trigger] e[a] != #[trigger] e[c] by {
                if c == e.len() - 1 {
                    assert(e[a] == e1[a]);
                    assert(s1.contains(e1[a]->SubagentSpawned_name));
                } else {
                    assert(e[a] == e1[a] && e[c] == e1[c]);
                }
            }
            assert forall|a: int| 0 <= a < e.len() implies (#[trigger] e[a]) is SubagentSpawned
                && s1.insert(m).contains(e[a]->SubagentSpawned_name) && e[a]->SubagentSpawned_session_id == id by {
                if a < e1.len() {
                    assert(e[a] == e1[a]);
                }
            }
        } else {
            if (exists|j: int| 0 <= j < n && (#[trigger] names[j])@ == nm) && !seen.contains(nm) && m == nm {
                assert(exists|j: int| 0 <= j < n - 1 && (#[trigger] names[j])@ == nm);
            }
        }
    } else {
        assert(subagents_upto(seen, id, names, n).1 =~= Seq::<EventModel>::empty());
    }
}

/// Subagents are reported once per name: a name is reported exactly when
/// the session lists it and it was not reported before, no report
/// repeats, and afterwards every listed name counts as reported.
pub proof fn law_subagents_once(seen: Set<Seq<char>>, id: Seq<char>, names: Seq<String>, nm: Seq<char>)
    ensures
        subagents_upto(seen, id, names, names.len() as int).1.contains(EventModel::SubagentSpawned { session_id: id, name: nm }) <==> ((exists|j: int|
            0 <= j < names.len() && (#[trigger] names[j])@ == nm) && !seen.contains(nm)),
        subagents_upto(seen, id, names, names.len() as int).1.no_duplicates(),
        subagents_upto(seen, id, names, names.len() as int).0.contains(nm) <==> (seen.contains(nm) || exists|j: int|
            0 <= j < names.len() && (#[trigger] names[j])@ == nm),
{
    lemma_subagents(seen, id, names, names.len() as int, nm);
    let e = subagents_upto(seen, id, names, names.len() as int).1;
    assert forall|a: int, c: int| 0 <= a < e.len() && 0 <= c < e.len() && a != c implies e[a] != e[c] by {
        if c < a {
            assert(e[c] != e[a]);
        }
    }
}
} // verus!
