use abtop::backend::Backend;
use abtop::event_config::{
    load_initial, reload_cli, reload_due, ConfigFile, EventsConfig, ExpansionEnv, LoadSources, PluginsTable,
    SourceFile,
};
use abtop::notifier::NotifierConfig;
use abtop::rules::Rule;
use abtop::system_notifier::{SystemNotifier, SystemNotifierConfig};

fn env() -> ExpansionEnv {
    ExpansionEnv {
        vars: vec![("XDG_RUNTIME_DIR".to_string(), "/run/user/501".to_string())],
        uid: Some("501".to_string()),
        home: Some("/home/u".to_string()),
    }
}

fn no_sources() -> LoadSources {
    LoadSources { main: None, drop_ins: vec![] }
}

fn events_only(enabled: bool, socket: Option<&str>, backlog: usize) -> ConfigFile {
    ConfigFile {
        events: EventsConfig { enabled, socket: socket.map(|s| s.to_string()), backlog },
        plugins: PluginsTable { notifier: None, system_notifier: None },
    }
}

fn rule(on: &str, title: &str, body: &str) -> Rule {
    Rule {
        on: vec![on.to_string()],
        when: None,
        title: title.to_string(),
        body: body.to_string(),
        debounce_ms: None,
    }
}

fn notifier_file(debounce_ms: u64, rules: Vec<Rule>) -> ConfigFile {
    ConfigFile {
        events: EventsConfig::default(),
        plugins: PluginsTable {
            notifier: Some(NotifierConfig {
                enabled_at_startup: false,
                backend: None,
                debounce_ms,
                rule: rules,
                generation: 0,
            }),
            system_notifier: None,
        },
    }
}

#[test]
fn skip_files_returns_defaults_and_no_errors() {
    let (loaded, errors) = load_initial(None, true, "/home/u/.config", no_sources(), &env());
    assert!(loaded.contributing_paths.is_empty());
    assert!(loaded.source_path.is_none());
    assert!(loaded.mtime.is_none());
    assert!(errors.is_empty());
}

#[test]
fn loads_main_file_via_cli_config() {
    let path = "/tmp/cfg/abtop.toml";
    let sources = LoadSources {
        main: Some(SourceFile {
            path: path.to_string(),
            parsed: Ok((events_only(true, Some("/tmp/explicit.sock"), 64), Some(10))),
        }),
        drop_ins: vec![],
    };
    let (loaded, errors) = load_initial(Some(path), false, "/home/u/.config", sources, &env());
    assert!(errors.is_empty());
    assert!(loaded.events.enabled);
    assert_eq!(loaded.events.backlog, 64);
    assert_eq!(loaded.resolved_socket.as_deref(), Some("/tmp/explicit.sock"));
    assert_eq!(loaded.source_path.as_deref(), Some(path));
}

#[test]
fn malformed_main_file_reports_error_and_uses_defaults() {
    let path = "/tmp/cfg/bad.toml";
    let sources = LoadSources {
        main: Some(SourceFile {
            path: path.to_string(),
            parsed: Err("expected `=`".to_string()),
        }),
        drop_ins: vec![],
    };
    let (loaded, errors) = load_initial(Some(path), false, "/home/u/.config", sources, &env());
    assert_eq!(errors.len(), 1);
    assert_eq!(errors[0].path, path);
    assert!(!loaded.events.enabled);
    assert_eq!(loaded.events.backlog, 256);
}

#[test]
fn notifier_section_parses_and_bumps_generation() {
    let path = "/tmp/cfg/c.toml";
    let mut file = notifier_file(1000, vec![rule("StatusChanged", "x", "y")]);
    file.events.enabled = true;
    if let Some(n) = file.plugins.notifier.as_mut() {
        n.enabled_at_startup = true;
        n.backend = Some(Backend::Stderr);
    }
    let sources = LoadSources {
        main: Some(SourceFile { path: path.to_string(), parsed: Ok((file, Some(5))) }),
        drop_ins: vec![],
    };
    let (loaded, errors) = load_initial(Some(path), false, "/home/u/.config", sources, &env());
    assert!(errors.is_empty());
    let n = &loaded.plugins.notifier;
    assert!(n.enabled_at_startup);
    assert_eq!(n.debounce_ms, 1000);
    assert_eq!(n.rule.len(), 1);
    assert_eq!(n.rule[0].title, "x");
    assert!(n.generation > 0, "generation should be bumped on load");
}

#[test]
fn drop_ins_append_rules_and_override_scalars() {
    let sources = LoadSources {
        main: Some(SourceFile {
            path: "/xdg/abtop/config.toml".to_string(),
            parsed: Ok((notifier_file(1000, vec![rule("A", "ta", "ba")]), Some(1))),
        }),
        drop_ins: vec![SourceFile {
            path: "/xdg/abtop/plugins.d/z-overlay.toml".to_string(),
            parsed: Ok((notifier_file(2000, vec![rule("B", "tb", "bb")]), Some(2))),
        }],
    };
    let (loaded, errors) = load_initial(None, false, "/xdg", sources, &env());
    assert!(errors.is_empty());
    let n = &loaded.plugins.notifier;
    assert_eq!(n.debounce_ms, 2000, "drop-in scalar should override");
    assert_eq!(n.rule.len(), 2, "rules should APPEND across drop-ins");
    assert_eq!(n.rule[0].title, "ta");
    assert_eq!(n.rule[1].title, "tb");
    assert_eq!(loaded.contributing_paths.len(), 2);
    assert_eq!(loaded.mtime, Some(2));
}

#[test]
fn reload_if_changed_returns_none_when_unchanged() {
    let path = "/tmp/cfg/c.toml";
    let sources = LoadSources {
        main: Some(SourceFile { path: path.to_string(), parsed: Ok((events_only(true, None, 256), Some(100))) }),
        drop_ins: vec![],
    };
    let (loaded, _) = load_initial(Some(path), false, "/home/u/.config", sources, &env());
    let current = loaded.contributing_paths.clone();
    assert!(!reload_due(&loaded, &current, loaded.mtime));
}

#[test]
fn reload_if_changed_picks_up_mtime_advance() {
    let path = "/tmp/cfg/c.toml";
    let sources = LoadSources {
        main: Some(SourceFile { path: path.to_string(), parsed: Ok((events_only(true, None, 100), Some(100))) }),
        drop_ins: vec![],
    };
    let (loaded, _) = load_initial(Some(path), false, "/home/u/.config", sources, &env());
    let current = loaded.contributing_paths.clone();
    assert!(reload_due(&loaded, &current, Some(1_100)));
    let again = LoadSources {
        main: Some(SourceFile { path: path.to_string(), parsed: Ok((events_only(true, None, 200), Some(1_100))) }),
        drop_ins: vec![],
    };
    let (loaded2, errors) = load_initial(Some(path), false, "/home/u/.config", again, &env());
    assert!(errors.is_empty());
    assert_eq!(loaded2.events.backlog, 200);
}

#[test]
fn reload_is_never_due_when_files_are_skipped() {
    let (loaded, _) = load_initial(None, true, "/home/u/.config", no_sources(), &env());
    assert!(!reload_due(&loaded, &vec!["/x.toml".to_string()], Some(5)));
}

#[test]
fn socket_setting_is_interpolated() {
    let path = "/tmp/cfg/c.toml";
    let sources = LoadSources {
        main: Some(SourceFile {
            path: path.to_string(),
            parsed: Ok((events_only(true, Some("${XDG_RUNTIME_DIR}/abtop.sock"), 256), None)),
        }),
        drop_ins: vec![],
    };
    let (loaded, _) = load_initial(Some(path), false, "/home/u/.config", sources, &env());
    assert_eq!(loaded.resolved_socket.as_deref(), Some("/run/user/501/abtop.sock"));
}

#[test]
fn validator_rejects_missing_conduit() {
    let cfg = SystemNotifierConfig {
        enabled_at_startup: true,
        conduit: String::new(),
        ..Default::default()
    };
    let err = cfg.validate().unwrap_err();
    assert!(err.contains("conduit is required"));
}

#[test]
fn validator_rejects_whitespace_only_conduit() {
    let cfg = SystemNotifierConfig {
        enabled_at_startup: true,
        conduit: "   ".to_string(),
        ..Default::default()
    };
    assert!(cfg.validate().is_err());
}

#[test]
fn validator_accepts_disabled_without_conduit() {
    let cfg = SystemNotifierConfig {
        enabled_at_startup: false,
        conduit: String::new(),
        ..Default::default()
    };
    assert!(cfg.validate().is_ok());
}

#[test]
fn config_default_timeout_is_5000() {
    let cfg = SystemNotifierConfig::default();
    assert_eq!(cfg.conduit_timeout_ms, 5_000);
}

#[test]
fn config_default_title_is_kind_marker() {
    let cfg = SystemNotifierConfig::default();
    assert_eq!(cfg.title, "{kind}");
}

#[test]
fn config_default_debounce_is_5000() {
    let cfg = SystemNotifierConfig::default();
    assert_eq!(cfg.debounce_ms, 5_000);
}

#[test]
fn system_notifier_new_shares_its_config() {
    let mut cfg = SystemNotifierConfig::default();
    cfg.title = "custom".to_string();
    cfg.generation = 7;
    let sn = SystemNotifier::new(cfg);
    let held = sn.shared().read().unwrap().clone();
    assert_eq!(held.title, "custom");
    assert_eq!(held.generation, 7);
}

#[test]
fn reload_keeps_drop_ins_of_the_default_config() {
    let sources = LoadSources {
        main: Some(SourceFile {
            path: "/xdg/abtop/config.toml".to_string(),
            parsed: Ok((events_only(true, None, 256), Some(1))),
        }),
        drop_ins: vec![],
    };
    let (loaded, _) = load_initial(None, false, "/xdg", sources, &env());
    assert_eq!(reload_cli(&loaded), None);

    let explicit = LoadSources {
        main: Some(SourceFile {
            path: "/tmp/cfg/c.toml".to_string(),
            parsed: Ok((events_only(true, None, 256), Some(1))),
        }),
        drop_ins: vec![],
    };
    let (loaded, _) = load_initial(Some("/tmp/cfg/c.toml"), false, "/xdg", explicit, &env());
    assert_eq!(reload_cli(&loaded), Some("/tmp/cfg/c.toml".to_string()));

    let (fresh, _) = load_initial(None, false, "/xdg", no_sources(), &env());
    assert_eq!(reload_cli(&fresh), None);
}
