use abtop::diff::{
    diff, ContextReadings, EventDifferState, HostReading, LatchReading, McpServerView,
    OrphanPortView, RateLimitView, SessionView, Snapshot, TokenReading, ToolCallView,
};
use abtop::events::AppEvent;

fn reading(value: f64, fire: f64, clear: f64) -> LatchReading {
    LatchReading { at_or_above_fire: value >= fire, below_clear: value < clear }
}

fn ctx(pct: f64) -> ContextReadings {
    ContextReadings {
        b70: reading(pct, 70.0, 65.0),
        b90: reading(pct, 90.0, 85.0),
        b95: reading(pct, 95.0, 90.0),
    }
}

fn session(id: &str, status: &str, pct: f64) -> SessionView {
    SessionView {
        agent_cli: "acme".into(),
        pid: 1234,
        session_id: id.into(),
        status: status.into(),
        context: ctx(pct),
        compaction_count: 0,
        tool_calls: Vec::new(),
        subagents: Vec::new(),
    }
}

fn empty_snapshot() -> Snapshot {
    Snapshot {
        sessions: Vec::new(),
        rate_limits: Vec::new(),
        orphan_ports: Vec::new(),
        mcp_servers: Vec::new(),
        host: None,
    }
}

fn quiet() -> TokenReading {
    TokenReading {
        rate: 0,
        baseline: 0,
        next_baseline: 0,
        baseline_positive: false,
        latch: LatchReading { at_or_above_fire: false, below_clear: true },
    }
}

fn rate_limit(source: &str, pct: f64, resets: Option<u64>) -> RateLimitView {
    RateLimitView { source: source.into(), limited: pct >= 90.0, five_hour_resets_at: resets, seven_day_resets_at: None }
}

fn run(state: &mut EventDifferState, prev: &Snapshot, next: &Snapshot, slow: bool) -> Vec<AppEvent> {
    diff(state, prev, next, slow, 0, &quiet())
}

fn buckets(events: &[AppEvent]) -> Vec<u8> {
    events
        .iter()
        .filter_map(|e| match e {
            AppEvent::ContextThreshold { bucket, .. } => Some(*bucket),
            _ => None,
        })
        .collect()
}

fn with_session(id: &str, pct: f64) -> Snapshot {
    let mut s = empty_snapshot();
    s.sessions.push(session(id, "Thinking", pct));
    s
}

#[test]
fn empty_diff_is_empty() {
    let prev = empty_snapshot();
    let next = empty_snapshot();
    let mut state = EventDifferState::new();
    let events = run(&mut state, &prev, &next, true);
    assert!(events.is_empty());
}

#[test]
fn session_started_when_id_appears() {
    let prev = empty_snapshot();
    let next = with_session("s1", 0.0);
    let mut state = EventDifferState::new();
    let events = run(&mut state, &prev, &next, true);
    assert_eq!(events.len(), 1);
    match &events[0] {
        AppEvent::SessionStarted { session_id, .. } => assert_eq!(session_id, "s1"),
        ev => panic!("expected SessionStarted, got {ev:?}"),
    }
}

#[test]
fn session_ended_when_id_disappears() {
    let prev = with_session("s1", 0.0);
    let next = empty_snapshot();
    let mut state = EventDifferState::new();
    let events = run(&mut state, &prev, &next, true);
    assert_eq!(events.len(), 1);
    assert!(matches!(events[0], AppEvent::SessionEnded { .. }));
}

#[test]
fn status_changed_when_status_differs() {
    let mut prev = empty_snapshot();
    prev.sessions.push(session("s1", "Thinking", 0.0));
    let mut next = empty_snapshot();
    next.sessions.push(session("s1", "Executing", 0.0));
    let mut state = EventDifferState::new();
    let events = run(&mut state, &prev, &next, true);
    assert_eq!(events.len(), 1);
    match &events[0] {
        AppEvent::StatusChanged { from, to, .. } => {
            assert_eq!(from, "Thinking");
            assert_eq!(to, "Executing");
        }
        ev => panic!("expected StatusChanged, got {ev:?}"),
    }
}

#[test]
fn context_bucket_ladder_climb_emits_three_events() {
    let prev = with_session("s1", 60.0);
    let next = with_session("s1", 96.0);
    let mut state = EventDifferState::new();
    let id = "s1".to_string();
    state.set_context_bucket(&id, 70, false);
    state.set_context_bucket(&id, 90, false);
    state.set_context_bucket(&id, 95, false);
    let events = run(&mut state, &prev, &next, false);
    assert_eq!(buckets(&events), vec![70, 90, 95]);
}

#[test]
fn context_bucket_does_not_refire_without_clearing() {
    let mut state = EventDifferState::new();
    let prev_a = with_session("s1", 60.0);
    let next_a = with_session("s1", 96.0);
    let _e1 = run(&mut state, &prev_a, &next_a, false);
    let next_b = with_session("s1", 92.0);
    let e2 = run(&mut state, &next_a, &next_b, false);
    assert!(buckets(&e2).is_empty(), "expected no re-fire");
}

#[test]
fn context_bucket_rearms_after_clear() {
    let mut state = EventDifferState::new();
    let s_60 = with_session("s1", 60.0);
    let s_80 = with_session("s1", 80.0);
    let e1 = run(&mut state, &s_60, &s_80, false);
    assert_eq!(e1.len(), 1);
    let e2 = run(&mut state, &s_80, &s_60, false);
    assert!(e2.iter().all(|e| !matches!(e, AppEvent::ContextThreshold { .. })));
    let e3 = run(&mut state, &s_60, &s_80, false);
    assert_eq!(e3.len(), 1);
    assert!(matches!(e3[0], AppEvent::ContextThreshold { bucket: 70, .. }));
}

#[test]
fn context_buckets_are_independent() {
    let mut state = EventDifferState::new();
    let s_60 = with_session("s1", 60.0);
    let s_88 = with_session("s1", 88.0);
    let s_96 = with_session("s1", 96.0);
    let e1 = run(&mut state, &s_60, &s_88, false);
    assert_eq!(buckets(&e1), vec![70]);
    let e2 = run(&mut state, &s_88, &s_96, false);
    assert_eq!(buckets(&e2), vec![90, 95]);
    let _ = run(&mut state, &s_96, &s_88, false);
    let e4 = run(&mut state, &s_88, &s_96, false);
    assert_eq!(buckets(&e4), vec![95]);
}

#[test]
fn slow_tier_suppressed_when_slow_tick_did_not_run() {
    let mut prev = empty_snapshot();
    let mut next = empty_snapshot();
    next.rate_limits.push(rate_limit("acme", 95.0, None));
    let mut state = EventDifferState::new();
    let events_fast = run(&mut state, &prev, &next, false);
    assert!(events_fast.is_empty(), "slow tier must not emit on fast tick");

    prev.rate_limits.push(rate_limit("acme", 0.0, None));
    let mut state2 = EventDifferState::new();
    let events_slow = run(&mut state2, &prev, &next, true);
    assert!(matches!(events_slow[0], AppEvent::RateLimited { .. }));
}

#[test]
fn rate_limited_fires_once_and_clears() {
    let mut state = EventDifferState::new();
    let limited = {
        let mut s = empty_snapshot();
        s.rate_limits.push(rate_limit("acme", 95.0, Some(1_700_000_000)));
        s
    };
    let unlimited = {
        let mut s = empty_snapshot();
        s.rate_limits.push(rate_limit("acme", 40.0, None));
        s
    };
    let e1 = run(&mut state, &empty_snapshot(), &limited, true);
    let limited_count = e1.iter().filter(|e| matches!(e, AppEvent::RateLimited { .. })).count();
    assert_eq!(limited_count, 1);
    match e1
        .iter()
        .find_map(|e| match e {
            AppEvent::RateLimited { resets_at_ms, .. } => Some(*resets_at_ms),
            _ => None,
        })
        .unwrap()
    {
        Some(ms) => assert_eq!(ms, 1_700_000_000 * 1000),
        None => panic!("expected resets_at_ms to be Some"),
    }
    let e2 = run(&mut state, &limited, &limited, true);
    assert!(e2.iter().all(|e| !matches!(e, AppEvent::RateLimited { .. })));
    let e3 = run(&mut state, &limited, &unlimited, true);
    assert!(e3.iter().any(|e| matches!(e, AppEvent::RateLimitCleared { .. })));
}

#[test]
fn orphan_port_appeared() {
    let prev = empty_snapshot();
    let mut next = empty_snapshot();
    next.orphan_ports.push(OrphanPortView { port: 8080, pid: 99 });
    let mut state = EventDifferState::new();
    let on_slow = run(&mut state, &prev, &next, true);
    assert!(on_slow.iter().any(|e| matches!(e, AppEvent::OrphanPortAppeared { .. })));
    let mut state2 = EventDifferState::new();
    let on_fast = run(&mut state2, &prev, &next, false);
    assert!(on_fast.iter().all(|e| !matches!(e, AppEvent::OrphanPortAppeared { .. })));
}

#[test]
fn mcp_server_appear_and_vanish() {
    let mut a = empty_snapshot();
    a.mcp_servers.push(McpServerView { pid: 7, parent_cli: "agent-b".into() });
    let b = empty_snapshot();
    let mut state = EventDifferState::new();
    let e1 = run(&mut state, &b, &a, true);
    assert!(e1.iter().any(|e| matches!(e, AppEvent::McpServerAppeared { .. })));
    let e2 = run(&mut state, &a, &b, true);
    assert!(e2.iter().any(|e| matches!(e, AppEvent::McpServerVanished { pid: 7 })));
}

#[test]
fn host_load_high_latches() {
    let mut state = EventDifferState::new();
    let mk = |load1: f64| {
        let mut s = empty_snapshot();
        s.host = Some(HostReading { load1: load1.to_bits(), latch: reading(load1, 4.0, 3.0) });
        s
    };
    let _ = run(&mut state, &mk(0.5), &mk(2.0), false);
    let e1 = run(&mut state, &mk(2.0), &mk(4.5), false);
    assert!(e1.iter().any(|e| matches!(e, AppEvent::HostLoadHigh { .. })));
    let e2 = run(&mut state, &mk(4.5), &mk(4.7), false);
    assert!(e2.iter().all(|e| !matches!(e, AppEvent::HostLoadHigh { .. })));
    let _ = run(&mut state, &mk(4.7), &mk(2.0), false);
    let e4 = run(&mut state, &mk(2.0), &mk(4.5), false);
    assert!(e4.iter().any(|e| matches!(e, AppEvent::HostLoadHigh { .. })));
}

#[test]
fn tool_called_emits_for_new_tail_items() {
    let mut state = EventDifferState::new();
    let prev = with_session("s1", 0.0);
    let mut next = empty_snapshot();
    let mut s = session("s1", "Thinking", 0.0);
    s.tool_calls.push(ToolCallView { name: "Read".into(), arg: "/foo".into() });
    next.sessions.push(s);
    let e1 = run(&mut state, &prev, &next, false);
    assert_eq!(e1.iter().filter(|e| matches!(e, AppEvent::ToolCalled { .. })).count(), 1);
    let e2 = run(&mut state, &next, &next, false);
    assert_eq!(e2.iter().filter(|e| matches!(e, AppEvent::ToolCalled { .. })).count(), 0);
}

#[test]
fn compaction_detected_on_increment() {
    let mut state = EventDifferState::new();
    let prev = with_session("s1", 0.0);
    let mut next = empty_snapshot();
    let mut s = session("s1", "Thinking", 0.0);
    s.compaction_count = 1;
    next.sessions.push(s);
    run(&mut state, &prev, &prev, false);
    let e1 = run(&mut state, &prev, &next, false);
    assert_eq!(e1.iter().filter(|e| matches!(e, AppEvent::CompactionDetected { .. })).count(), 1);
}

#[test]
fn session_ended_purges_detector_state() {
    let mut state = EventDifferState::new();
    let s_present = with_session("s1", 80.0);
    let s_absent = empty_snapshot();
    let id = "s1".to_string();
    let _ = run(&mut state, &empty_snapshot(), &s_present, false);
    assert!(state.context_bucket_armed(&id, 70).unwrap_or(false));
    let _ = run(&mut state, &s_present, &s_absent, true);
    assert!(state.context_bucket_armed(&id, 70).is_none(), "bucket state should be purged when session ends");
}

#[test]
fn token_spike_fires_once_while_above() {
    let mut state = EventDifferState::new();
    let snap = empty_snapshot();
    let spike = TokenReading {
        rate: 90.0f64.to_bits(),
        baseline: 10.0f64.to_bits(),
        next_baseline: 12.0f64.to_bits(),
        baseline_positive: true,
        latch: LatchReading { at_or_above_fire: true, below_clear: false },
    };
    let e1 = diff(&mut state, &snap, &snap, false, 0, &spike);
    assert!(e1.iter().any(|e| matches!(e, AppEvent::TokenRateSpike { .. })));
    assert_eq!(state.token_rate_baseline(), Some(12.0f64.to_bits()));
    let e2 = diff(&mut state, &snap, &snap, false, 0, &spike);
    assert!(e2.iter().all(|e| !matches!(e, AppEvent::TokenRateSpike { .. })));
}

#[test]
fn subagent_spawned_once_per_name() {
    let mut state = EventDifferState::new();
    let prev = with_session("s1", 0.0);
    let mut next = empty_snapshot();
    let mut s = session("s1", "Thinking", 0.0);
    s.subagents.push("explorer".into());
    next.sessions.push(s);
    let e1 = run(&mut state, &prev, &next, false);
    assert_eq!(e1.iter().filter(|e| matches!(e, AppEvent::SubagentSpawned { .. })).count(), 1);
    let e2 = run(&mut state, &next, &next, false);
    assert_eq!(e2.iter().filter(|e| matches!(e, AppEvent::SubagentSpawned { .. })).count(), 0);
}

#[test]
fn vanished_providers_clear_in_sorted_order() {
    let mut limited = empty_snapshot();
    limited.rate_limits.push(rate_limit("zeta", 95.0, None));
    limited.rate_limits.push(rate_limit("alpha", 95.0, None));
    limited.rate_limits.push(rate_limit("mid", 95.0, None));
    let mut state = EventDifferState::new();
    let _ = run(&mut state, &empty_snapshot(), &limited, true);
    let gone = run(&mut state, &limited, &empty_snapshot(), true);
    let cleared: Vec<String> = gone
        .iter()
        .filter_map(|e| match e {
            AppEvent::RateLimitCleared { provider } => Some(provider.clone()),
            _ => None,
        })
        .collect();
    assert_eq!(cleared, vec!["alpha".to_string(), "mid".to_string(), "zeta".to_string()]);
}

#[test]
fn vanished_mcp_servers_follow_prev_order_once_each() {
    let mut a = empty_snapshot();
    for pid in [9u32, 3, 9, 5] {
        a.mcp_servers.push(McpServerView { pid, parent_cli: "agent-b".into() });
    }
    let mut b = empty_snapshot();
    b.mcp_servers.push(McpServerView { pid: 5, parent_cli: "agent-b".into() });
    let mut state = EventDifferState::new();
    let e = run(&mut state, &a, &b, true);
    let vanished: Vec<u32> = e
        .iter()
        .filter_map(|ev| match ev {
            AppEvent::McpServerVanished { pid } => Some(*pid),
            _ => None,
        })
        .collect();
    assert_eq!(vanished, vec![9, 3]);
}

#[test]
fn equal_states_give_equal_events() {
    let mut limited = empty_snapshot();
    limited.rate_limits.push(rate_limit("b", 95.0, None));
    limited.rate_limits.push(rate_limit("a", 95.0, None));
    limited.mcp_servers.push(McpServerView { pid: 4, parent_cli: "x".into() });
    limited.mcp_servers.push(McpServerView { pid: 2, parent_cli: "x".into() });
    let mut s1 = EventDifferState::new();
    let mut s2 = EventDifferState::new();
    let _ = run(&mut s1, &empty_snapshot(), &limited, true);
    let _ = run(&mut s2, &empty_snapshot(), &limited, true);
    assert_eq!(run(&mut s1, &limited, &empty_snapshot(), true), run(&mut s2, &limited, &empty_snapshot(), true));
}

#[test]
fn lifecycle_events_carry_their_payloads() {
    let mut prev = empty_snapshot();
    prev.sessions.push(session("old", "Thinking", 10.0));
    prev.sessions.push(session("kept", "Thinking", 10.0));
    let mut next = empty_snapshot();
    next.sessions.push(session("kept", "Idle", 10.0));
    next.sessions.push(session("new", "Thinking", 10.0));
    let mut state = EventDifferState::new();
    let e = run(&mut state, &prev, &next, false);
    assert!(e.contains(&AppEvent::SessionStarted { session_id: "new".into(), agent_cli: "acme".into(), pid: 1234 }));
    assert!(e.contains(&AppEvent::SessionEnded { session_id: "old".into() }));
    assert!(e.contains(&AppEvent::StatusChanged { session_id: "kept".into(), from: "Thinking".into(), to: "Idle".into() }));
}
