use abtop::backend::{Availability, Backend, CaptureSink};
use abtop::debounce::Debouncer;
use abtop::event_key::{event_key_hash, fnv1a, to_json_text, JsonObject, JsonValue};
use abtop::events::{AppEvent, WireRecord};
use abtop::footer::{events_line_text, footer_mode, key_hints, truncate_middle, Hint};
use abtop::invoke::{build_env, build_request, stderr_tail, truncate_to, InvokeError, MAX_FIELD_ENV_BYTES};
use abtop::event_config::ExpansionEnv;
use abtop::plugins::{list_available, print_catalogue, PluginInfo};
use abtop::rules::{cmp_num, compile, eval_when, parse_when, CompiledRule, Literal, NumOrder, Op, Rule};
use abtop::system_notifier::{SystemNotifier, SystemNotifierConfig};
use abtop::template::{escape_for_osascript, osascript_script, render};
use abtop::worker::{is_meta_line, log_due, next_backoff_ms, rules_to_fire, should_invoke, with_kind};

fn obj(pairs: Vec<(&str, JsonValue)>) -> JsonObject {
    Some(pairs.into_iter().map(|(k, v)| (k.to_string(), v)).collect())
}

fn s(v: &str) -> JsonValue {
    JsonValue::Str(v.to_string())
}

fn n(v: &str) -> JsonValue {
    JsonValue::Number(v.to_string())
}

fn get(env: &[(String, String)], key: &str) -> Option<String> {
    env.iter().rev().find(|(k, _)| k == key).map(|(_, v)| v.clone())
}

fn order(lhs: f64, rhs: f64) -> Option<NumOrder> {
    if lhs < rhs {
        Some(NumOrder::Less)
    } else if lhs > rhs {
        Some(NumOrder::Greater)
    } else if lhs == rhs {
        Some(NumOrder::Equal)
    } else {
        None
    }
}

fn plain_rule(on: Vec<&str>, when: Option<&str>, disabled: bool) -> CompiledRule {
    CompiledRule {
        on: on.into_iter().map(|x| x.to_string()).collect(),
        when: when.map(|w| parse_when(w).unwrap()),
        title: String::new(),
        body: String::new(),
        debounce_ms: None,
        idx: 0,
        disabled,
        disable_reason: if disabled { Some("test".into()) } else { None },
    }
}

// ---------------------------------------------------------------- debounce

#[test]
fn debouncer_blocks_within_window() {
    let mut d = Debouncer::new(1000);
    assert!(d.allow((0, 1), 1000));
    assert!(!d.allow((0, 1), 1000));
}

#[test]
fn debouncer_separates_keys() {
    let mut d = Debouncer::new(1000);
    assert!(d.allow((0, 1), 1000));
    assert!(d.allow((1, 1), 1000));
    assert!(d.allow((0, 2), 1000));
}

#[test]
fn debouncer_zero_window_always_allows() {
    let mut d = Debouncer::new(0);
    assert!(d.allow((0, 1), 0));
    assert!(d.allow((0, 1), 0));
    assert!(d.allow((0, 1), 0));
}

#[test]
fn debouncer_window_elapses_at_exact_boundary() {
    let mut d = Debouncer::new(1000);
    assert!(d.allow_at((0, 1), 1000, 5_000_000_000));
    assert!(!d.allow_at((0, 1), 1000, 5_999_999_999));
    assert!(d.allow_at((0, 1), 1000, 6_000_000_000));
    assert!(!d.allow_at((0, 1), 1000, 6_500_000_000));
}

#[test]
fn debouncer_collects_stale_keys_above_threshold() {
    let mut d = Debouncer::new(10);
    for k in 0..1025u64 {
        assert!(d.allow_at((0, k), 10, 0));
    }
    assert!(d.allow_at((0, 5000), 10, 61_000_000_000));
    assert!(d.allow_at((0, 1), 10, 61_000_000_001));
}

// --------------------------------------------------------------- event key

#[test]
fn event_key_hash_prefers_session_id() {
    let h1 = event_key_hash(&obj(vec![("session_id", s("abc")), ("provider", s("acme"))]));
    let h2 = event_key_hash(&obj(vec![("session_id", s("abc")), ("provider", s("globex"))]));
    let h3 = event_key_hash(&obj(vec![("session_id", s("xyz")), ("provider", s("acme"))]));
    assert_eq!(h1, h2);
    assert_ne!(h1, h3);
}

#[test]
fn event_key_hash_falls_through_to_provider() {
    let h1 = event_key_hash(&obj(vec![("provider", s("acme"))]));
    let h2 = event_key_hash(&obj(vec![("provider", s("globex"))]));
    assert_ne!(h1, h2);
}

#[test]
fn event_key_hash_returns_zero_for_unkeyed() {
    assert_eq!(event_key_hash(&obj(vec![("load1", n("5.0"))])), 0);
    assert_eq!(event_key_hash(&None), 0);
}

#[test]
fn event_key_hash_hashes_quoted_json_text() {
    assert_eq!(fnv1a(b""), 0xcbf2_9ce4_8422_2325);
    assert_eq!(fnv1a(b"a"), 0xaf63_dc4c_8601_ec8c);
    assert_eq!(event_key_hash(&obj(vec![("session_id", s("abc"))])), fnv1a(b"\"abc\""));
    assert_eq!(event_key_hash(&obj(vec![("port", n("8080"))])), fnv1a(b"8080"));
    assert_eq!(event_key_hash(&obj(vec![("pid", JsonValue::Null)])), fnv1a(b"null"));
}

// --------------------------------------------------------------- catalogue

#[test]
fn print_catalogue_empty_says_no_plugins() {
    let mut buf = String::new();
    print_catalogue(&mut buf, &[]);
    assert!(buf.contains("No plugins compiled into this binary."));
    assert!(buf.contains("--features plugin-notifier"));
}

#[test]
fn print_catalogue_renders_plugin_info() {
    let info = PluginInfo {
        name: "demo-plugin",
        feature: "plugin-demo",
        default_on: true,
        startup_enabled: false,
        description: "Test plugin used in unit tests only.",
        startup: "disabled by default.",
        example_config: "[plugins.demo]\nenabled = true\n",
        docs_pointer: "docs/demo.md",
    };
    let mut buf = String::new();
    print_catalogue(&mut buf, &[info]);
    assert!(buf.contains("Available plugins"));
    assert!(buf.contains("demo-plugin"));
    assert!(buf.contains("plugin-demo"));
    assert!(buf.contains("default-on"));
    assert!(buf.contains("[plugins.demo]"));
    assert!(buf.contains("enabled = true"));
    assert!(buf.contains("docs/demo.md"));
}

#[test]
fn catalogue_wraps_long_descriptions() {
    let info = PluginInfo {
        name: "p",
        feature: "f",
        default_on: false,
        startup_enabled: false,
        description: "one two three four five six seven eight nine ten eleven twelve thirteen fourteen",
        startup: "s",
        example_config: "a\r\n\r\nb",
        docs_pointer: "d",
    };
    let mut buf = String::new();
    print_catalogue(&mut buf, &[info]);
    let expected_head = format!("  {:<40}  [feature: f · opt-in]\n", "p");
    assert!(buf.contains(&expected_head));
    assert!(buf.contains(
        "    Description: one two three four five six seven eight nine ten eleven twelve\n                 thirteen fourteen\n"
    ));
    assert!(buf.contains("\n      a\n\n      b\n"));
}

#[test]
fn list_available_includes_notifier_when_feature_on() {
    let v = list_available();
    assert!(v.iter().any(|p| p.name == "notifier"));
}

#[test]
fn list_available_includes_system_notifier_when_feature_on() {
    let v = list_available();
    assert!(v.iter().any(|p| p.name == "system_notifier"));
}

#[test]
fn list_available_descriptions_distinguish_plugins() {
    let v = list_available();
    let n = v.iter().find(|p| p.name == "notifier").unwrap();
    let s = v.iter().find(|p| p.name == "system_notifier").unwrap();
    assert!(n.description.to_lowercase().contains("built-in"));
    assert!(s.description.to_lowercase().contains("conduit"));
}

// ----------------------------------------------------------------- backend

#[test]
fn probe_picks_stderr_when_preferred() {
    let avail = Availability { osascript: false, notify_send: true, terminal_notifier: false };
    let chosen = Backend::probe(Some(Backend::Stderr), &avail, &abtop::backend::platform_defaults("linux"));
    assert_eq!(chosen, Backend::Stderr);
}

#[test]
fn probe_falls_back_to_stderr_when_no_default_runs() {
    let none = Availability { osascript: false, notify_send: false, terminal_notifier: false };
    let chosen = Backend::probe(None, &none, &abtop::backend::platform_defaults("macos"));
    assert_eq!(chosen, Backend::Stderr);
    let linux = Availability { osascript: false, notify_send: true, terminal_notifier: false };
    assert_eq!(
        Backend::probe(Some(Backend::Osascript), &linux, &abtop::backend::platform_defaults("linux")),
        Backend::NotifySend
    );
}

#[test]
fn capture_records_dispatches() {
    let mut sink = CaptureSink::new();
    assert!(sink.is_empty());
    sink.record("t1".into(), "b1".into());
    sink.record("t2".into(), "b2".into());
    assert_eq!(sink.len(), 2);
    assert_eq!(sink.snapshot(), vec![("t1".to_string(), "b1".to_string()), ("t2".to_string(), "b2".to_string())]);
}

#[test]
fn backend_names_select_backends() {
    assert_eq!(abtop::notifier::backend_from_name("auto"), Ok(None));
    assert_eq!(abtop::notifier::backend_from_name("notify-send"), Ok(Some(Backend::NotifySend)));
    assert_eq!(abtop::notifier::backend_from_name("stderr"), Ok(Some(Backend::Stderr)));
    assert!(abtop::notifier::backend_from_name("pager").is_err());
}

// ------------------------------------------------------------------- rules

#[test]
fn parse_when_all_operators() {
    for (src, op) in [
        ("x == 1", Op::Eq),
        ("x != 1", Op::Ne),
        ("x >= 1", Op::Ge),
        ("x <= 1", Op::Le),
        ("x > 1", Op::Gt),
        ("x < 1", Op::Lt),
    ] {
        let w = parse_when(src).unwrap();
        assert_eq!(w.op, op, "wrong op for {src}");
        assert_eq!(w.field, "x");
    }
}

#[test]
fn parse_when_string_literal() {
    let w = parse_when("provider == \"acme\"").unwrap();
    assert_eq!(w.field, "provider");
    match w.literal {
        Literal::Str(s) => assert_eq!(s, "acme"),
        _ => panic!("expected string literal"),
    }
}

#[test]
fn parse_when_rejects_junk() {
    assert!(parse_when("").is_err());
    assert!(parse_when("no_op_here").is_err());
    assert!(parse_when("x ?? 1").is_err());
    assert!(parse_when("x ==").is_err());
    assert!(parse_when("x == \"unterminated").is_err());
    assert!(parse_when("x == 1 garbage").is_err());
    assert!(parse_when("x == \"ok\" garbage").is_err());
}

#[test]
fn parse_when_error_messages_name_the_source() {
    assert_eq!(parse_when("   ").unwrap_err().0, "empty when expression");
    assert_eq!(parse_when("x ?? 1").unwrap_err().0, "unknown operator in: x ?? 1");
    assert_eq!(parse_when("x == abc").unwrap_err().0, "invalid numeric literal in: x == abc");
    assert_eq!(parse_when("== 1").unwrap_err().0, "expected field name in: == 1");
}

#[test]
fn parse_when_accepts_float_grammar() {
    for lit in ["1", "-2.5", "+.5", "3.", "1e3", "1E-3", "inf", "-Infinity", "NaN"] {
        let w = parse_when(&format!("x >= {lit}")).unwrap();
        assert!(matches!(w.literal, Literal::Num(ref t) if t == lit));
    }
    for lit in [".", "e3", "1e", "1.2.3", "0x10"] {
        assert!(parse_when(&format!("x >= {lit}")).is_err(), "{lit} should be rejected");
    }
}

#[test]
fn matches_wildcard_on_list() {
    let rule = plain_rule(vec![], None, false);
    assert!(abtop::rules::matches(&rule, "AnyEvent", &obj(vec![]), None));
}

#[test]
fn matches_filters_by_type_name() {
    let rule = plain_rule(vec!["StatusChanged"], None, false);
    assert!(abtop::rules::matches(&rule, "StatusChanged", &obj(vec![]), None));
    assert!(!abtop::rules::matches(&rule, "RateLimited", &obj(vec![]), None));
}

#[test]
fn matches_with_when_numeric_threshold() {
    let rule = plain_rule(vec!["ContextThreshold"], Some("bucket >= 90"), false);
    for (bucket, expected) in [(90.0, true), (95.0, true), (70.0, false)] {
        let ctx = obj(vec![("bucket", n(&format!("{}", bucket as u64)))]);
        let numeric = Some(order(bucket, 90.0));
        assert_eq!(abtop::rules::matches(&rule, "ContextThreshold", &ctx, numeric), expected);
    }
}

#[test]
fn matches_with_when_string_eq() {
    let rule = plain_rule(vec!["RateLimited"], Some("provider == \"acme\""), false);
    assert!(abtop::rules::matches(&rule, "RateLimited", &obj(vec![("provider", s("acme"))]), None));
    assert!(!abtop::rules::matches(&rule, "RateLimited", &obj(vec![("provider", s("globex"))]), None));
}

#[test]
fn disabled_rule_never_matches() {
    let rule = plain_rule(vec![], None, true);
    assert!(!abtop::rules::matches(&rule, "X", &obj(vec![]), None));
}

#[test]
fn compile_marks_invalid_when_disabled() {
    let rules = vec![Rule {
        on: vec![],
        when: Some("not a valid expr".into()),
        title: "t".into(),
        body: "b".into(),
        debounce_ms: None,
    }];
    let out = compile(rules);
    assert_eq!(out.len(), 1);
    assert!(out[0].disabled);
    assert!(out[0].disable_reason.is_some());
}

#[test]
fn eval_when_string_literal_only_eq_and_ne() {
    let w = parse_when("count >= \"3\"").unwrap();
    assert!(!eval_when(&w, &obj(vec![("count", n("3"))]), None));
    let eq = parse_when("flag == \"true\"").unwrap();
    assert!(eval_when(&eq, &obj(vec![("flag", JsonValue::Bool(true))]), None));
    let ne = parse_when("flag != \"true\"").unwrap();
    assert!(eval_when(&ne, &obj(vec![("flag", JsonValue::Bool(false))]), None));
    assert!(!eval_when(&eq, &obj(vec![("other", JsonValue::Bool(true))]), None));
}

#[test]
fn numeric_comparison_follows_ieee_order() {
    assert!(cmp_num(Some(NumOrder::Equal), Op::Ge));
    assert!(!cmp_num(Some(NumOrder::Less), Op::Ge));
    assert!(cmp_num(None, Op::Ne));
    assert!(!cmp_num(None, Op::Eq));
    assert!(!cmp_num(None, Op::Lt));
}

// ------------------------------------------------------------------ worker

#[test]
fn mod_handle_line_skips_meta_records() {
    assert!(is_meta_line("{\"v\":1,\"_meta\":\"dropped\",\"count\":7}"));
    assert!(!is_meta_line("{\"v\":1,\"ts_ms\":1,\"type\":\"StatusChanged\"}"));
}

#[test]
fn build_ctx_includes_kind_field() {
    let fields = vec![
        ("session_id".to_string(), s("abc")),
        ("ts_ms".to_string(), n("42")),
        ("type".to_string(), s("StatusChanged")),
    ];
    let ctx = with_kind(fields, "StatusChanged");
    let find = |k: &str| ctx.iter().find(|(n, _)| n == k).map(|(_, v)| v.clone());
    assert_eq!(find("kind"), Some(s("StatusChanged")));
    assert_eq!(find("session_id"), Some(s("abc")));
    assert_eq!(find("ts_ms"), Some(n("42")));
}

#[test]
fn rules_fire_in_order_and_are_debounced() {
    let rules = compile(vec![
        Rule { on: vec!["StatusChanged".into()], when: None, title: "a".into(), body: "".into(), debounce_ms: None },
        Rule { on: vec!["RateLimited".into()], when: None, title: "b".into(), body: "".into(), debounce_ms: None },
        Rule { on: vec![], when: None, title: "c".into(), body: "".into(), debounce_ms: Some(0) },
    ]);
    let ctx = obj(vec![("session_id", s("X"))]);
    let mut deb = Debouncer::new(60_000);
    let fired = rules_to_fire(&rules, "StatusChanged", &ctx, &vec![None, None, None], &mut deb, 60_000);
    assert_eq!(fired, vec![0, 2]);
    let again = rules_to_fire(&rules, "StatusChanged", &ctx, &vec![None, None, None], &mut deb, 60_000);
    assert_eq!(again, vec![2]);
}

#[test]
fn handle_line_skips_meta_records() {
    let cfg = SystemNotifierConfig {
        enabled_at_startup: true,
        conduit: "/bin/true".to_string(),
        debounce_ms: 0,
        on: vec!["StatusChanged".into()],
        ..Default::default()
    };
    let mut deb = Debouncer::new(0);
    assert!(is_meta_line("{\"v\":1,\"_meta\":\"dropped\",\"count\":7}"));
    assert!(!should_invoke(&cfg, "RateLimited", &obj(vec![]), &mut deb));
    assert!(should_invoke(&cfg, "StatusChanged", &obj(vec![("session_id", s("A"))]), &mut deb));
    assert!(should_invoke(&cfg, "StatusChanged", &obj(vec![("session_id", s("A"))]), &mut deb));
}

#[test]
fn log_lines_and_backoff_are_paced() {
    assert!(log_due(None, 0));
    assert!(!log_due(Some(10), 10 + 29_999_999_999));
    assert!(log_due(Some(10), 10 + 30_000_000_000));
    assert_eq!(next_backoff_ms(200), 400);
    assert_eq!(next_backoff_ms(4000), 5000);
    assert_eq!(next_backoff_ms(5000), 5000);
}

// ------------------------------------------------------------------ invoke

fn sample_rec() -> WireRecord {
    WireRecord::new(
        AppEvent::StatusChanged { session_id: "abc".into(), from: "Thinking".into(), to: "Executing".into() },
        42,
    )
}

fn sample_fields() -> JsonObject {
    obj(vec![
        ("from", s("Thinking")),
        ("session_id", s("abc")),
        ("to", s("Executing")),
        ("ts_ms", n("42")),
        ("type", s("StatusChanged")),
        ("v", n("1")),
    ])
}

#[test]
fn build_env_includes_curated_keys() {
    let env = build_env("hello", "world", &sample_rec(), &sample_fields());
    assert_eq!(get(&env, "ABTOP_TITLE").as_deref(), Some("hello"));
    assert_eq!(get(&env, "ABTOP_BODY").as_deref(), Some("world"));
    assert_eq!(get(&env, "ABTOP_EVENT_TYPE").as_deref(), Some("StatusChanged"));
    assert_eq!(get(&env, "ABTOP_TS_MS").as_deref(), Some("42"));
    assert_eq!(get(&env, "ABTOP_FIELD_SESSION_ID").as_deref(), Some("abc"));
    assert_eq!(get(&env, "ABTOP_FIELD_FROM").as_deref(), Some("Thinking"));
    assert!(get(&env, "ABTOP_FIELD_V").is_none());
    assert!(get(&env, "ABTOP_FIELD_TS_MS").is_none());
    assert!(get(&env, "ABTOP_FIELD_TYPE").is_none());
}

#[test]
fn build_env_truncates_oversized_field() {
    let big = "x".repeat(8 * 1024);
    let rec = WireRecord::new(
        AppEvent::ToolCalled { session_id: "s".into(), tool: "Read".into(), arg: big.clone() },
        7,
    );
    let fields = obj(vec![("arg", s(&big)), ("session_id", s("s")), ("tool", s("Read"))]);
    let env = build_env("t", "b", &rec, &fields);
    let arg = get(&env, "ABTOP_FIELD_ARG").expect("ARG env present");
    assert!(arg.len() <= MAX_FIELD_ENV_BYTES, "got len {}", arg.len());
}

#[test]
fn truncate_to_respects_char_boundaries() {
    assert_eq!(truncate_to("héllo", 2), "h");
    assert_eq!(truncate_to("héllo", 3), "hé");
    assert_eq!(truncate_to("abc", 10), "abc");
}

#[test]
fn build_request_expands_tilde_in_conduit_path() {
    let cfg = SystemNotifierConfig {
        enabled_at_startup: true,
        conduit: "~/notify.sh".to_string(),
        ..Default::default()
    };
    let env = ExpansionEnv { vars: vec![], uid: Some("1".into()), home: Some("/home/u".into()) };
    let req = build_request(&cfg, &sample_rec(), "t".into(), "b".into(), &env);
    assert!(!req.conduit.starts_with('~'), "tilde should be expanded, got {}", req.conduit);
    assert_eq!(req.conduit, "/home/u/notify.sh");
    assert_eq!(req.timeout_ms, 5000);
}

#[test]
fn invoke_error_messages() {
    assert_eq!(InvokeError::Timeout.message(), "conduit timed out");
    assert_eq!(
        InvokeError::NonZeroExit { status: 7, stderr_tail: String::new() }.message(),
        "conduit exited with status 7"
    );
    assert_eq!(
        InvokeError::NonZeroExit { status: -1, stderr_tail: "boom".into() }.message(),
        "conduit exited with status -1: boom"
    );
    let e = InvokeError::SpawnFailed(std::io::Error::new(std::io::ErrorKind::NotFound, "missing"));
    assert!(e.message().starts_with("conduit spawn failed: "));
}

#[test]
fn stderr_tail_is_trimmed_and_capped() {
    assert_eq!(stderr_tail("  oops \n"), "oops");
    let long = "y".repeat(300);
    let tail = stderr_tail(&long);
    assert_eq!(tail, format!("{}…", "y".repeat(256)));
}

// ------------------------------------------------------------------ footer

#[test]
fn truncate_middle_returns_original_when_short() {
    assert_eq!(truncate_middle("abc", 10), "abc");
    assert_eq!(truncate_middle("abcdefghij", 10), "abcdefghij");
}

#[test]
fn truncate_middle_middle_truncates_when_too_long() {
    let s = "/var/folders/xy/zz/T/abtop.sock";
    let out = truncate_middle(s, 16);
    assert_eq!(out.chars().count(), 16);
    assert!(out.contains('…'));
    assert!(out.starts_with("/var"));
    assert!(out.ends_with("abtop.sock"));
}

#[test]
fn truncate_middle_zero_max_is_empty() {
    assert_eq!(truncate_middle("hello", 0), "");
}

#[test]
fn truncate_middle_unit_max_is_ellipsis() {
    assert_eq!(truncate_middle("hello", 1), "…");
}

#[test]
fn events_line_splits_budget() {
    let (prefix, path) = events_line_text(false, 2, "/tmp/abtop.sock", 80);
    assert_eq!(prefix, " events: on • 2 conns • ");
    assert_eq!(path, "/tmp/abtop.sock");
    let (_, none) = events_line_text(true, 0, "/tmp/abtop.sock", 10);
    assert_eq!(none, "");
}

#[test]
fn footer_filter_suffix_and_width() {
    assert_eq!(abtop::footer::filter_suffix(80, "1/2 sessions", "Esc clear,keep"), "_  1/2 sessions");
    assert_eq!(
        abtop::footer::filter_suffix(120, "1/2 sessions", "clear, keep "),
        "_  1/2 sessions  (Esc clear, Enter keep)"
    );
    assert_eq!(
        abtop::footer::filter_suffix(120, "3 s", "clear"),
        "_  3 s  (Esc clear, Enter keep)"
    );
    assert_eq!(abtop::footer::filter_width(20, "_  1/2 x"), 10);
    assert_eq!(abtop::footer::filter_width(5, "_  1/2 x"), 0);
}

#[test]
fn footer_counts_and_peak_notice() {
    assert_eq!(abtop::footer::count_label(2, 5, "sessions"), "2/5 sessions");
    assert_eq!(abtop::footer::count_label(5, 5, "sessions"), "5 sessions");
    assert_eq!(abtop::footer::peak_time_left(12, 0), Some((6, 0)));
    assert_eq!(abtop::footer::peak_time_left(17, 45), Some((0, 15)));
    assert_eq!(abtop::footer::peak_time_left(18, 0), None);
    assert_eq!(abtop::footer::peak_text("peak", "resets in", 1, 5), "⚡peak (resets in 1h05m)");
    assert_eq!(abtop::footer::count_cell(10, "5 s", 20), Some("    5 s".to_string()));
    assert_eq!(abtop::footer::count_cell(17, "5 s", 20), None);
    assert_eq!(abtop::footer::footer_mode(75), (true, false));
}

#[test]
fn render_substitutes_string_fields_bare() {
    let ctx = obj(vec![("session_id", s("s1")), ("kind", s("session_started"))]);
    assert_eq!(render("T-{session_id}", &ctx), "T-s1");
    assert_eq!(render("{kind}: {session_id}!", &ctx), "session_started: s1!");
}

#[test]
fn render_writes_other_values_as_json() {
    let ctx = obj(vec![("pct", n("85")), ("ok", JsonValue::Bool(true)), ("gone", JsonValue::Null)]);
    assert_eq!(render("at {pct}% {ok} {gone}", &ctx), "at 85% true null");
}

#[test]
fn render_keeps_unknown_and_unclosed_placeholders() {
    let ctx = obj(vec![("a", s("x"))]);
    assert_eq!(render("{missing}-{a}", &ctx), "{missing}-x");
    assert_eq!(render("open {a", &ctx), "open {a");
    assert_eq!(render("{a}", &None), "{a}");
    assert_eq!(render("", &ctx), "");
}

#[test]
fn osascript_escaping_covers_quotes_and_backslashes() {
    assert_eq!(escape_for_osascript(r#"say "hi" \o/"#), r#"say \"hi\" \\o/"#);
    assert_eq!(escape_for_osascript("plain"), "plain");
    assert_eq!(
        osascript_script("T \"x\"", "b"),
        r#"display notification "b" with title "T \"x\"""#
    );
}

#[test]
fn footer_hints_narrow_with_width() {
    let (c, u) = footer_mode(120);
    assert_eq!(
        key_hints(true, c, u),
        vec![Hint::Select, Hint::Jump, Hint::Kill, Hint::Filter, Hint::View, Hint::Config, Hint::Help, Hint::Quit]
    );
    let (c, u) = footer_mode(75);
    assert_eq!(
        key_hints(true, c, u),
        vec![Hint::Select, Hint::Jump, Hint::Tabs, Hint::Kill, Hint::Filter, Hint::View, Hint::Help, Hint::Quit]
    );
    let (c, u) = footer_mode(70);
    assert_eq!(key_hints(true, c, u), vec![Hint::Select, Hint::Tabs, Hint::Filter, Hint::Quit]);
    let (c, u) = footer_mode(120);
    assert_eq!(
        key_hints(false, c, u),
        vec![Hint::Select, Hint::Kill, Hint::Filter, Hint::View, Hint::Config, Hint::Help, Hint::Quit]
    );
}

#[test]
fn parse_when_field_must_start_with_letter_or_underscore() {
    assert_eq!(parse_when("9x == 1").unwrap_err().0, "expected field name in: 9x == 1");
    assert_eq!(parse_when(" 5h_pct > 3").unwrap_err().0, "expected field name in:  5h_pct > 3");
    assert_eq!(parse_when("_x9 == 1").unwrap().field, "_x9");
    assert_eq!(parse_when("x9 == 1").unwrap().field, "x9");
}

#[test]
fn suppressed_repeats_do_not_extend_the_window() {
    let mut d = Debouncer::new(1000);
    assert!(d.allow_at((0, 1), 1000, 1_000_000_000));
    assert!(!d.allow_at((0, 1), 1000, 1_600_000_000));
    assert!(!d.allow_at((0, 1), 1000, 1_900_000_000));
    // Measured from the last fire at 1 s, not from the refused offers.
    assert!(d.allow_at((0, 1), 1000, 2_000_000_000));
    assert!(d.allow_at((0, 2), 1000, 2_000_000_001));
}

#[test]
fn truncate_to_keeps_longest_fitting_prefix() {
    assert_eq!(truncate_to("aé", 2), "a");
    assert_eq!(truncate_to("aé", 3), "aé");
    assert_eq!(truncate_to("héllo", 0), "");
    assert_eq!(truncate_to("abc", 10), "abc");
}

#[test]
fn catalogue_entries_carry_every_field() {
    let all = list_available();
    assert_eq!(all.len(), 2);
    assert_eq!(all[0].feature, "plugin-notifier");
    assert_eq!(all[1].feature, "plugin-system-notifier");
    assert_eq!(all[0].docs_pointer, "README.md#plugins");
    assert!(all[1].example_config.starts_with("[plugins.system_notifier]"));
    assert!(!all[0].default_on && !all[1].startup_enabled);
}

#[test]
fn json_text_of_strings_escapes_like_serde_json() {
    assert_eq!(to_json_text(&s("a\"b\\c")), r#""a\"b\\c""#);
    assert_eq!(to_json_text(&s("l\n\t\r\u{8}\u{c}")), r#""l\n\t\r\b\f""#);
    assert_eq!(to_json_text(&s("\u{1}\u{1f}é/")), r#""\u0001\u001fé/""#);
}

#[test]
fn plugins_report_their_registry_names() {
    let n = abtop::notifier::Notifier::new(abtop::notifier::NotifierConfig::default());
    assert_eq!(n.name(), "notifier");
    let sn = SystemNotifier::new(SystemNotifierConfig::default());
    assert_eq!(sn.name(), "system_notifier");
}

#[test]
fn footer_status_cell_priority() {
    assert_eq!(abtop::footer::status_slot(true, false, true), abtop::footer::StatusSlot::Hidden);
    assert_eq!(abtop::footer::status_slot(false, false, true), abtop::footer::StatusSlot::Filter);
    assert_eq!(abtop::footer::status_slot(false, true, true), abtop::footer::StatusSlot::Fresh);
    assert_eq!(abtop::footer::status_slot(false, true, false), abtop::footer::StatusSlot::Auto);
}

#[test]
fn conduit_poll_and_exit_outcomes() {
    assert_eq!(abtop::invoke::next_poll_ms(0), None);
    assert_eq!(abtop::invoke::next_poll_ms(10), Some(10));
    assert_eq!(abtop::invoke::next_poll_ms(1000), Some(25));
    assert!(abtop::invoke::exit_outcome(true, Some(0), String::new()).is_ok());
    match abtop::invoke::exit_outcome(false, None, "boom".to_string()) {
        Err(InvokeError::NonZeroExit { status, stderr_tail }) => {
            assert_eq!(status, -1);
            assert_eq!(stderr_tail, "boom");
        }
        _ => panic!("expected a non-zero exit"),
    }
}
