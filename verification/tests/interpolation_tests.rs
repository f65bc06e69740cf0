use abtop::interpolation::expand_with;

fn run(input: &str, env_pairs: &[(&str, &str)], uid: Option<&str>, home: Option<&str>) -> String {
    let env: Vec<(String, String)> = env_pairs
        .iter()
        .map(|(k, v)| ((*k).to_string(), (*v).to_string()))
        .collect();
    expand_with(input, &env, uid.map(|s| s.to_string()), home.map(|s| s.to_string()))
}

#[test]
fn passthrough_for_plain_strings() {
    assert_eq!(run("/tmp/abtop.sock", &[], Some("1000"), Some("/h")), "/tmp/abtop.sock");
}

#[test]
fn expands_uid() {
    assert_eq!(run("/tmp/abtop.${UID}.sock", &[], Some("501"), Some("/h")), "/tmp/abtop.501.sock");
}

#[test]
fn expands_xdg_runtime_dir() {
    assert_eq!(
        run(
            "${XDG_RUNTIME_DIR}/abtop.sock",
            &[("XDG_RUNTIME_DIR", "/run/user/501")],
            Some("501"),
            Some("/h"),
        ),
        "/run/user/501/abtop.sock"
    );
}

#[test]
fn missing_xdg_runtime_dir_yields_empty() {
    assert_eq!(
        run("${XDG_RUNTIME_DIR}/abtop.sock", &[("XDG_RUNTIME_DIR", "")], Some("501"), Some("/h")),
        "/abtop.sock"
    );
}

#[test]
fn unknown_variable_left_verbatim() {
    assert_eq!(run("/tmp/${UNKNOWN}/x", &[], Some("0"), Some("/h")), "/tmp/${UNKNOWN}/x");
}

#[test]
fn expands_home_prefix() {
    assert_eq!(
        run("~/sockets/abtop.sock", &[], Some("0"), Some("/users/a")),
        "/users/a/sockets/abtop.sock"
    );
}

#[test]
fn bare_tilde_expands() {
    assert_eq!(run("~", &[], Some("0"), Some("/h")), "/h");
}

#[test]
fn tilde_not_at_start_left_alone() {
    assert_eq!(run("/path/with~tilde", &[], Some("0"), Some("/h")), "/path/with~tilde");
}

#[test]
fn dangling_dollar_brace_left_alone() {
    assert_eq!(run("/tmp/${UID/x", &[], Some("501"), Some("/h")), "/tmp/${UID/x");
}

#[test]
fn unknown_uid_left_verbatim() {
    assert_eq!(run("/tmp/abtop.${UID}.sock", &[], None, Some("/h")), "/tmp/abtop.${UID}.sock");
}

#[test]
fn tilde_without_home_left_alone() {
    assert_eq!(run("~/x", &[], Some("0"), None), "~/x");
}

#[test]
fn later_env_pair_wins() {
    assert_eq!(run("${A}", &[("A", "one"), ("A", "two")], None, None), "two");
}

#[test]
fn dollar_without_brace_and_tilde_inside_pass_through() {
    let env = [("HOME", "/h"), ("X", "y")];
    assert_eq!(run("$HOME/a$X~b", &env, Some("1"), Some("/h")), "$HOME/a$X~b");
    assert_eq!(run("~user/x", &env, Some("1"), Some("/h")), "~user/x");
    assert_eq!(run("a$", &env, Some("1"), Some("/h")), "a$");
}
