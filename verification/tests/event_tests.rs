use abtop::events::{AppEvent, EventKind, EventTier, WireRecord, WIRE_VERSION};
use abtop::publisher::{
    after_line, after_meta, bind_preflight, conn_count, dropped_meta_record, meta_due,
    paused_after, publish_gate, reported_paused, Delivery, SendOutcome,
};
use abtop::socket_path::{parse_u32, resolve_from, uid_from, validate_sun_path_length};

#[test]
fn tier_assignments() {
    assert_eq!(
        AppEvent::StatusChanged {
            session_id: "s".into(),
            from: "Thinking".into(),
            to: "Executing".into(),
        }
        .tier(),
        EventTier::Fast
    );
    assert_eq!(
        AppEvent::RateLimited { provider: "acme".into(), resets_at_ms: None }.tier(),
        EventTier::Slow
    );
    assert_eq!(AppEvent::OrphanPortAppeared { port: 80, prior_pid: 1 }.tier(), EventTier::Slow);
    assert_eq!(AppEvent::HostLoadHigh { load1: 4.0f64.to_bits() }.tier(), EventTier::Fast);
}

#[test]
fn kind_assignments() {
    assert_eq!(
        AppEvent::SessionStarted {
            session_id: "s".into(),
            agent_cli: "acme".into(),
            pid: 1,
        }
        .kind(),
        EventKind::Lifecycle
    );
    assert_eq!(
        AppEvent::ContextThreshold { session_id: "s".into(), bucket: 70 }.kind(),
        EventKind::Threshold
    );
    assert_eq!(
        AppEvent::RateLimited { provider: "p".into(), resets_at_ms: None }.kind(),
        EventKind::Quota
    );
    assert_eq!(AppEvent::HostLoadHigh { load1: 4.0f64.to_bits() }.kind(), EventKind::Host);
}

#[test]
fn type_tag_names_each_variant() {
    assert_eq!(AppEvent::McpServerVanished { pid: 3 }.type_tag(), "McpServerVanished");
    assert_eq!(AppEvent::CompactionDetected { session_id: "s".into() }.type_tag(), "CompactionDetected");
    assert_eq!(AppEvent::HostLoadHigh { load1: 0 }.type_tag(), "HostLoadHigh");
}

#[test]
fn wire_record_new_stamps_version() {
    let rec = WireRecord::new(AppEvent::SessionEnded { session_id: "s".into() }, 1_700_000_000_000);
    assert_eq!(rec.v, WIRE_VERSION);
    assert_eq!(rec.ts_ms, 1_700_000_000_000);
    let copy = rec.duplicate();
    assert_eq!(copy, rec);
}

#[test]
fn override_wins_over_env() {
    let p = resolve_from(
        Some("/explicit/path.sock"),
        Some("/env.sock".into()),
        Some("/run/user/1".into()),
        None,
        7,
    );
    assert_eq!(p, "/explicit/path.sock");
}

#[test]
fn env_socket_wins_over_directories() {
    let p = resolve_from(None, Some("/env.sock".into()), Some("/run/user/1".into()), Some("/tmp".into()), 7);
    assert_eq!(p, "/env.sock");
}

#[test]
fn xdg_runtime_dir_then_tmpdir() {
    assert_eq!(
        resolve_from(None, None, Some("/run/user/1".into()), Some("/var/tmp/".into()), 7),
        "/run/user/1/abtop.sock"
    );
    assert_eq!(resolve_from(None, None, Some(String::new()), Some("/var/tmp/".into()), 7), "/var/tmp/abtop.sock");
}

#[test]
fn fallback_includes_uid() {
    let s = resolve_from(None, None, None, None, 501);
    assert!(s.starts_with("/tmp/abtop-"));
    assert!(s.ends_with(".sock"));
    assert_eq!(s, "/tmp/abtop-501.sock");
}

#[test]
fn validates_path_length() {
    let short = "/tmp/x.sock";
    assert!(validate_sun_path_length(short).is_ok());
    let long: String = "/tmp/".chars().chain(std::iter::repeat('a').take(150)).collect();
    let err = validate_sun_path_length(&long).unwrap_err();
    assert!(err.contains("ABTOP_EVENTS_SOCKET"));
    assert_eq!(err, "socket path too long (155 >= 104). Set ABTOP_EVENTS_SOCKET to a shorter path.");
}

#[test]
fn path_length_counts_bytes_not_chars() {
    let exactly: String = std::iter::repeat('a').take(103).collect();
    assert!(validate_sun_path_length(&exactly).is_ok());
    let multibyte: String = std::iter::repeat('é').take(52).collect();
    assert!(validate_sun_path_length(&multibyte).is_err());
}

#[test]
fn uid_parsing_follows_u32_rules() {
    assert_eq!(parse_u32("501"), Some(501));
    assert_eq!(parse_u32("+7"), Some(7));
    assert_eq!(parse_u32("-7"), None);
    assert_eq!(parse_u32(""), None);
    assert_eq!(parse_u32("4294967295"), Some(u32::MAX));
    assert_eq!(parse_u32("4294967296"), None);
    assert_eq!(parse_u32(" 5"), None);
    assert_eq!(uid_from(Some("abc".into()), Some(" 1000\n".into())), 1000);
    assert_eq!(uid_from(Some("42".into()), Some("1000".into())), 42);
    assert_eq!(uid_from(None, None), 0);
}

#[test]
fn disabled_is_no_op() {
    assert!(!publish_gate(false, false, 3));
    assert!(!publish_gate(true, true, 3));
    assert!(!publish_gate(true, false, 0));
    assert!(publish_gate(true, false, 1));
    assert_eq!(conn_count(false, &vec![false, false]), 0);
}

#[test]
fn set_paused_is_noop_when_disabled() {
    assert!(!paused_after(false, false, true));
    assert!(paused_after(true, false, true));
    assert!(!reported_paused(false, true));
    assert!(reported_paused(true, true));
}

#[test]
fn bind_refuses_path_with_unresolved_placeholder() {
    let err = bind_preflight("/tmp/${XGD_RUNTIME_DIR}/abtop.sock", "/tmp/${XGD_RUNTIME_DIR}/abtop.sock").unwrap_err();
    assert!(err.contains("unresolved placeholder"));
    assert!(bind_preflight("/tmp/abtop.sock", "/tmp/abtop.sock").is_ok());
}

#[test]
fn dropped_records_are_announced_then_cleared() {
    assert_eq!(dropped_meta_record(7), "{\"v\":1,\"_meta\":\"dropped\",\"count\":7}\n");
    let d = Delivery { drops: 0, dead: false, total_drops: 0 };
    assert!(!meta_due(d));
    let (d, go) = after_line(d, SendOutcome::Full);
    assert!(go);
    assert_eq!(d.drops, 1);
    assert_eq!(d.total_drops, 1);
    assert!(meta_due(d));
    let kept = after_meta(d, SendOutcome::Full);
    assert_eq!(kept.drops, 1);
    let cleared = after_meta(d, SendOutcome::Sent);
    assert_eq!(cleared.drops, 0);
    assert_eq!(cleared.total_drops, 1);
    let (dead, go) = after_line(cleared, SendOutcome::Disconnected);
    assert!(!go);
    assert!(dead.dead);
    assert_eq!(conn_count(true, &vec![false, true, false]), 2);
}
