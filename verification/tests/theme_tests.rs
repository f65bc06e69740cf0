use abtop::theme::{apply_kv, lookup, parse_hex, parse_line, parse_theme_body, Color, Gradient, Theme};

fn g(a: (u8, u8, u8)) -> Gradient {
    Gradient { start: a, mid: a, end: a }
}

/// A base palette carrying the embedded btop defaults these tests read.
fn btop() -> Theme {
    let c = Color::Rgb(1, 1, 1);
    Theme {
        name: "btop".into(),
        main_bg: Color::Rgb(25, 25, 25),
        main_fg: c,
        title: Color::Rgb(238, 238, 238),
        hi_fg: c,
        selected_bg: c,
        selected_fg: c,
        inactive_fg: c,
        graph_text: c,
        meter_bg: c,
        proc_misc: c,
        div_line: c,
        session_id: c,
        status_fg: c,
        warning_fg: c,
        cpu_box: c,
        mem_box: c,
        net_box: c,
        proc_box: c,
        cpu_grad: Gradient { start: (119, 202, 155), mid: (203, 192, 108), end: (220, 76, 76) },
        proc_grad: g((2, 2, 2)),
        used_grad: g((3, 3, 3)),
        free_grad: g((4, 4, 4)),
        cached_grad: g((5, 5, 5)),
    }
}

#[test]
fn parse_hex_6_digit_uppercase() {
    assert_eq!(parse_hex("#ABCDEF"), Some(Color::Rgb(0xAB, 0xCD, 0xEF)));
}

#[test]
fn parse_hex_6_digit_lowercase() {
    assert_eq!(parse_hex("#abcdef"), Some(Color::Rgb(0xab, 0xcd, 0xef)));
}

#[test]
fn parse_hex_3_digit_expands_via_x17() {
    assert_eq!(parse_hex("#9af"), Some(Color::Rgb(0x99, 0xaa, 0xff)));
}

#[test]
fn parse_hex_rejects_missing_hash() {
    assert_eq!(parse_hex("abcdef"), None);
}

#[test]
fn parse_hex_rejects_wrong_length() {
    assert_eq!(parse_hex("#abcd"), None);
    assert_eq!(parse_hex("#abcdefab"), None);
}

#[test]
fn parse_hex_rejects_non_hex_chars() {
    assert_eq!(parse_hex("#zzzzzz"), None);
}

#[test]
fn parse_hex_rejects_signs_and_non_ascii() {
    assert_eq!(parse_hex("#+a+b+c"), None);
    assert_eq!(parse_hex("#+1+2+3"), None);
    assert_eq!(parse_hex("#-1-2-3"), None);
    assert_eq!(parse_hex("#éé12"), None);
    assert_eq!(parse_hex("#aébcd"), None);
    assert_eq!(parse_hex("#é1"), None);
}

const MINIMAL_BTOP_OVERRIDE: &str = r##"
# A theme that only sets main_bg + main_fg.
# Everything else inherits embedded btop defaults.
theme[main_bg]="#112233"
theme[main_fg]="#445566"
"##;

#[test]
fn parse_theme_body_sets_known_keys() {
    let t = parse_theme_body(&btop(), MINIMAL_BTOP_OVERRIDE, "test");
    assert_eq!(t.name, "test");
    assert_eq!(t.main_bg, Color::Rgb(0x11, 0x22, 0x33));
    assert_eq!(t.main_fg, Color::Rgb(0x44, 0x55, 0x66));
}

#[test]
fn parse_theme_body_inherits_unset_keys_from_btop() {
    let t = parse_theme_body(&btop(), MINIMAL_BTOP_OVERRIDE, "test");
    assert_eq!(t.title, Color::Rgb(238, 238, 238));
}

#[test]
fn parse_theme_body_empty_value_yields_reset_for_color_field() {
    let body = r##"theme[main_bg]="""##;
    let t = parse_theme_body(&btop(), body, "transparent");
    assert_eq!(t.main_bg, Color::Reset);
}

#[test]
fn parse_theme_body_empty_value_on_gradient_inherits_btop() {
    let body = r##"theme[cpu_grad_start]="""##;
    let t = parse_theme_body(&btop(), body, "test");
    assert_eq!(t.cpu_grad.start, (119, 202, 155));
}

#[test]
fn parse_theme_body_unknown_key_is_ignored() {
    let body = r##"theme[future_key]="#abcdef""##;
    let t = parse_theme_body(&btop(), body, "test");
    assert_eq!(t.name, "test");
    assert_eq!(t.main_bg, Color::Rgb(25, 25, 25));
}

#[test]
fn parse_theme_body_unknown_value_falls_back() {
    let body = r##"theme[main_bg]="not-a-color""##;
    let t = parse_theme_body(&btop(), body, "test");
    assert_eq!(t.main_bg, Color::Rgb(25, 25, 25));
}

#[test]
fn parse_theme_body_handles_comments_and_blanks() {
    let body = r##"
            # leading comment
            theme[main_fg]="#abcdef"

            # trailing comment with a "quoted" segment
        "##;
    let t = parse_theme_body(&btop(), body, "test");
    assert_eq!(t.main_fg, Color::Rgb(0xab, 0xcd, 0xef));
}

#[test]
fn parse_theme_body_reads_full_palette() {
    let body = r##"
theme[main_bg]="#010203"
theme[main_fg]="#040506"
theme[title]="#070809"
theme[hi_fg]="#0a0b0c"
theme[selected_bg]="#0d0e0f"
theme[selected_fg]="#101112"
theme[inactive_fg]="#131415"
theme[graph_text]="#161718"
theme[meter_bg]="#191a1b"
theme[proc_misc]="#1c1d1e"
theme[div_line]="#1f2021"
theme[session_id]="#222324"
theme[status_fg]="#252627"
theme[warning_fg]="#28292a"
theme[cpu_box]="#2b2c2d"
theme[mem_box]="#2e2f30"
theme[net_box]="#313233"
theme[proc_box]="#343536"
theme[cpu_grad_start]="#373839"
theme[cpu_grad_mid]="#3a3b3c"
theme[cpu_grad_end]="#3d3e3f"
theme[proc_grad_start]="#404142"
theme[proc_grad_mid]="#434445"
theme[proc_grad_end]="#464748"
theme[used_grad_start]="#494a4b"
theme[used_grad_mid]="#4c4d4e"
theme[used_grad_end]="#4f5051"
theme[free_grad_start]="#525354"
theme[free_grad_mid]="#555657"
theme[free_grad_end]="#58595a"
theme[cached_grad_start]="#5b5c5d"
theme[cached_grad_mid]="#5e5f60"
theme[cached_grad_end]="#616263"
"##;
    let t = parse_theme_body(&btop(), body, "full");
    assert_eq!(t.main_bg, Color::Rgb(1, 2, 3));
    assert_eq!(t.warning_fg, Color::Rgb(0x28, 0x29, 0x2a));
    assert_eq!(t.free_grad.mid, (0x55, 0x56, 0x57));
    assert_eq!(t.cached_grad.end, (0x61, 0x62, 0x63));
}

#[test]
fn parse_line_accepts_both_quote_styles() {
    assert_eq!(parse_line("  theme[a]  =  \"x\"  "), Some(("a".to_string(), "x".to_string())));
    assert_eq!(parse_line("theme[a]='y'"), Some(("a".to_string(), "y".to_string())));
    assert_eq!(parse_line("theme[a]=\"y'"), None);
    assert_eq!(parse_line("theme[a] \"y\""), None);
    assert_eq!(parse_line("color[a]=\"y\""), None);
    assert_eq!(parse_line("theme[a=\"y\""), None);
}

#[test]
fn apply_kv_ignores_unknown_keys() {
    let mut t = btop();
    apply_kv(&mut t, "nope", "#000000");
    assert_eq!(t.main_bg, Color::Rgb(25, 25, 25));
    apply_kv(&mut t, "proc_box", "#000");
    assert_eq!(t.proc_box, Color::Rgb(0, 0, 0));
}

#[test]
fn lookup_finds_bundled_body() {
    let table = vec![("btop".to_string(), "theme[main_bg]=\"#191919\"".to_string())];
    assert_eq!(lookup(&table, "btop").as_deref(), Some("theme[main_bg]=\"#191919\""));
    assert!(lookup(&table, "nonexistent").is_none());
}
