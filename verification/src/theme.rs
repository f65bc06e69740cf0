//! btop-style theme files: `theme[key]="value"` lines over a base
//! palette.
//!
//! Colors are `#RRGGBB` or `#RGB` hex (case-insensitive); an empty value
//! resets a color to the terminal default and leaves a gradient stop
//! unchanged. Unknown keys, unparsable values and other lines are
//! ignored, so a theme only overrides what it names.
use vstd::prelude::*;
use crate::text::{chars_of, has_prefix, substring, trim, trim_start, trim_start_in};

verus! {

/// A theme color: the terminal's default, or an RGB triple.
#[derive(Clone, Copy, Debug, PartialEq, Eq, Structural)]
pub enum Color {
    Reset,
    Rgb(u8, u8, u8),
}

/// Three RGB stops of a meter gradient.
#[derive(Clone, Copy, Debug, PartialEq, Eq)]
pub struct Gradient {
    pub start: (u8, u8, u8),
    pub mid: (u8, u8, u8),
    pub end: (u8, u8, u8),
}

/// A full palette.
#[derive(Clone, Debug)]
pub struct Theme {
    pub name: String,
    pub main_bg: Color,
    pub main_fg: Color,
    pub title: Color,
    pub hi_fg: Color,
    pub selected_bg: Color,
    pub selected_fg: Color,
    pub inactive_fg: Color,
    pub graph_text: Color,
    pub meter_bg: Color,
    pub proc_misc: Color,
    pub div_line: Color,
    pub session_id: Color,
    pub status_fg: Color,
    pub warning_fg: Color,
    pub cpu_box: Color,
    pub mem_box: Color,
    pub net_box: Color,
    pub proc_box: Color,
    pub cpu_grad: Gradient,
    pub proc_grad: Gradient,
    pub used_grad: Gradient,
    pub free_grad: Gradient,
    pub cached_grad: Gradient,
}

// ---------------------------------------------------------------------
// Hex colors
// ---------------------------------------------------------------------

/// Value of an ASCII hex digit (`0-9`, `a-f`, `A-F`).
pub open spec fn hex_digit(c: char) -> Option<u8> {
    let u = c as u32;
    if 48 <= u <= 57 {
        Some((u - 48) as u8)
    } else if 97 <= u <= 102 {
        Some((u - 87) as u8)
    } else if 65 <= u <= 70 {
        Some((u - 55) as u8)
    } else {
        None
    }
}

/// Value of two hex digits, high digit first.
pub open spec fn hex_pair(hi: char, lo: char) -> Option<u8> {
    match (hex_digit(hi), hex_digit(lo)) {
        (Some(a), Some(b)) => Some((a * 16 + b) as u8),
        _ => None,
    }
}

/// What a hex color value denotes: it is `Some` exactly when `raw`
/// matches `^#([0-9A-Fa-f]{6}|[0-9A-Fa-f]{3})$`; six digits give two per
/// channel, three give one per channel times 17.
pub open spec fn parse_hex_spec(raw: Seq<char>) -> Option<Color> {
    if raw.len() == 0 || raw[0] != '#' {
        None
    } else if raw.len() == 7 {
        match (hex_pair(raw[1], raw[2]), hex_pair(raw[3], raw[4]), hex_pair(raw[5], raw[6])) {
            (Some(r), Some(g), Some(bl)) => Some(Color::Rgb(r, g, bl)),
            _ => None,
        }
    } else if raw.len() == 4 {
        match (hex_digit(raw[1]), hex_digit(raw[2]), hex_digit(raw[3])) {
            (Some(r), Some(g), Some(bl)) => Some(Color::Rgb((r * 17) as u8, (g * 17) as u8, (bl * 17) as u8)),
            _ => None,
        }
    } else {
        None
    }
}

fn hex_digit_of(c: char) -> (r: Option<u8>)
    ensures
        r == hex_digit(c),
        r matches Some(d) ==> d < 16,
{
    let u = c as u32;
    if 48 <= u && u <= 57 {
        Some((u - 48) as u8)
    } else if 97 <= u && u <= 102 {
        Some((u - 87) as u8)
    } else if 65 <= u && u <= 70 {
        Some((u - 55) as u8)
    } else {
        None
    }
}

fn hex_pair_of(hi: char, lo: char) -> (r: Option<u8>)
    ensures
        r == hex_pair(hi, lo),
{
    match (hex_digit_of(hi), hex_digit_of(lo)) {
        (Some(a), Some(b)) => Some(a * 16 + b),
        _ => None,
    }
}

/// Parses a hex color: `#RRGGBB` or `#RGB` (each digit times 17), case
/// insensitive. Anything else, a sign or a non-ASCII character among the
/// digits included, is `None`.
pub fn parse_hex(raw: &str) -> (r: Option<Color>)
    ensures
        r == parse_hex_spec(raw@),
{
    let c = chars_of(raw);
    if c.len() == 0 || c[0] != '#' {
        return None;
    }
    if c.len() == 7 {
        let r = match hex_pair_of(c[1], c[2]) {
            Some(x) => x,
            None => return None,
        };
        let g = match hex_pair_of(c[3], c[4]) {
            Some(x) => x,
            None => return None,
        };
        let bl = match hex_pair_of(c[5], c[6]) {
            Some(x) => x,
            None => return None,
        };
        return Some(Color::Rgb(r, g, bl));
    }
    if c.len() == 4 {
        let r = match hex_digit_of(c[1]) {
            Some(x) => x,
            None => return None,
        };
        let g = match hex_digit_of(c[2]) {
            Some(x) => x,
            None => return None,
        };
        let bl = match hex_digit_of(c[3]) {
            Some(x) => x,
            None => return None,
        };
        return Some(Color::Rgb(r * 17, g * 17, bl * 17));
    }
    None
}

/// A hex digit character: `0-9`, `a-f` or `A-F` (by code point).
pub open spec fn is_hex_char(c: char) -> bool {
    let u = c as u32;
    (48 <= u <= 57) || (97 <= u <= 102) || (65 <= u <= 70)
}

/// The documented pattern: `#` then exactly six or exactly three hex
/// digits.
pub open spec fn hex_color_pattern(raw: Seq<char>) -> bool {
    &&& raw.len() == 7 || raw.len() == 4
    &&& raw[0] == '#'
    &&& forall|i: int| 1 <= i < raw.len() ==> is_hex_char(#[trigger] raw[i])
}

/// A value parses as a color exactly when it matches
/// `^#([0-9A-Fa-f]{6}|[0-9A-Fa-f]{3})$`.
pub proof fn law_hex_pattern(raw: Seq<char>)
    ensures
        parse_hex_spec(raw) is Some <==> hex_color_pattern(raw),
{
    assert forall|c: char| #[trigger] hex_digit(c) is Some <==> is_hex_char(c) by {}
    if hex_color_pattern(raw) {
        assert(is_hex_char(raw[1]) && is_hex_char(raw[2]) && is_hex_char(raw[3]));
        if raw.len() == 7 {
            assert(is_hex_char(raw[4]) && is_hex_char(raw[5]) && is_hex_char(raw[6]));
        }
    }
    if parse_hex_spec(raw) is Some {
        assert forall|i: int| 1 <= i < raw.len() implies is_hex_char(#[trigger] raw[i]) by {
            assert(hex_digit(raw[i]) is Some);
        }
    }
}

// ---------------------------------------------------------------------
// Lines
// ---------------------------------------------------------------------

/// `s` between a leading and a trailing `q`, when both are there.
pub open spec fn quoted(s: Seq<char>, q: char) -> Option<Seq<char>> {
    if s.len() >= 1 && s[0] == q && s.drop_first().len() >= 1 && s.drop_first().last() == q {
        Some(s.drop_first().drop_last())
    } else {
        None
    }
}

/// First index of `c` in `s` at or after `from`.
pub open spec fn index_of(s: Seq<char>, c: char, from: int) -> Option<int>
    decreases s.len() - from,
{
    if from < 0 || from >= s.len() {
        None
    } else if s[from] == c {
        Some(from)
    } else {
        index_of(s, c, from + 1)
    }
}

/// A `theme[key]="value"` (or single-quoted) line, surrounding
/// whitespace tolerated: its key and value.
pub open spec fn parse_line_spec(line: Seq<char>) -> Option<(Seq<char>, Seq<char>)> {
    let t = trim(line);
    if !has_prefix(t, "theme["@) {
        None
    } else {
        let rest = t.subrange(6, t.len() as int);
        match index_of(rest, ']', 0) {
            None => None,
            Some(k) => {
                let after = trim_start(rest.subrange(k + 1, rest.len() as int));
                if after.len() == 0 || after[0] != '=' {
                    None
                } else {
                    let vp = trim_start(after.drop_first());
                    match quoted(vp, '"') {
                        Some(v) => Some((rest.subrange(0, k), v)),
                        None => match quoted(vp, '\'') {
                            Some(v) => Some((rest.subrange(0, k), v)),
                            None => None,
                        },
                    }
                }
            },
        }
    }
}

pub proof fn lemma_index_of(s: Seq<char>, c: char, from: int)
    requires
        0 <= from,
    ensures
        match index_of(s, c, from) {
            Some(e) => from <= e < s.len() && s[e] == c && forall|k: int| from <= k < e ==> s[k] != c,
            None => forall|k: int| from <= k < s.len() ==> s[k] != c,
        },
    decreases s.len() - from,
{
    if from < s.len() && s[from] != c {
        lemma_index_of(s, c, from + 1);
    }
}

fn quoted_in(v: &Vec<char>, from: usize, to: usize, q: char) -> (r: Option<(usize, usize)>)
    requires
        from <= to <= v.len(),
    ensures
        match quoted(v@.subrange(from as int, to as int), q) {
            Some(x) => r matches Some(p) && p.0 <= p.1 <= v.len() && x == v@.subrange(p.0 as int, p.1 as int),
            None => r is None,
        },
{
    let ghost s = v@.subrange(from as int, to as int);
    if to - from >= 2 && v[from] == q && v[to - 1] == q {
        proof {
            assert(s[0] == v@[from as int]);
            assert(s.drop_first().last() == v@[to - 1]);
            assert(s.drop_first().drop_last() =~= v@.subrange(from + 1, to - 1));
        }
        return Some((from + 1, to - 1));
    }
    proof {
        if s.len() >= 1 && s[0] == q && s.drop_first().len() >= 1 {
            assert(s[0] == v@[from as int]);
            assert(s.drop_first().last() == v@[to - 1]);
        }
    }
    None
}

/// Key and value of the line `v[from..to]` (see [`parse_line_spec`]).
fn parse_line_in(v: &Vec<char>, from: usize, to: usize) -> (r: Option<(String, String)>)
    requires
        from <= to <= v.len(),
    ensures
        match parse_line_spec(v@.subrange(from as int, to as int)) {
            Some(kv) => r matches Some(p) && p.0@ == kv.0 && p.1@ == kv.1,
            None => r is None,
        },
{
    let ghost line = v@.subrange(from as int, to as int);
    let (a, b) = crate::text::trim_in(v, from, to);
    let ghost t = v@.subrange(a as int, b as int);
    proof {
        reveal_strlit("theme[");
    }
    if b - a < 6 {
        return None;
    }
    let head = chars_of("theme[");
    proof {
        assert(t.subrange(0, 6) =~= v@.subrange(a as int, v.len() as int).subrange(0, 6));
    }
    if !crate::text::prefix_at(v, a, head.as_slice()) {
        return None;
    }
    let rs = a + 6;
    let ghost rest = v@.subrange(rs as int, b as int);
    assert(rest =~= t.subrange(6, t.len() as int));
    let mut k = rs;
    while k < b && v[k] != ']'
        invariant
            rs <= k <= b <= v.len(),
            forall|j: int| rs <= j < k ==> v@[j] != ']',
        decreases b - k,
    {
        k = k + 1;
    }
    proof {
        lemma_index_of(rest, ']', 0);
    }
    if k == b {
        proof {
            if index_of(rest, ']', 0) is Some {
                let e = index_of(rest, ']', 0)->0;
                assert(rest[e] == v@[rs + e]);
            }
        }
        return None;
    }
    proof {
        let e = k - rs;
        assert(rest[e] == v@[k as int]);
        if index_of(rest, ']', 0)->0 < e {
            let y = index_of(rest, ']', 0)->0;
            assert(rest[y] == v@[rs + y]);
        }
        assert(index_of(rest, ']', 0) == Some(e));
        assert(rest.subrange(e + 1, rest.len() as int) =~= v@.subrange(k + 1, b as int));
        assert(rest.subrange(0, e) =~= v@.subrange(rs as int, k as int));
    }
    let c = trim_start_in(v, k + 1, b);
    if c == b || v[c] != '=' {
        return None;
    }
    let d = trim_start_in(v, c + 1, b);
    proof {
        let after = v@.subrange(c as int, b as int);
        assert(after[0] == v@[c as int]);
        assert(after.drop_first() =~= v@.subrange(c + 1, b as int));
    }
    let key = substring(v.as_slice(), rs, k);
    match quoted_in(v, d, b, '"') {
        Some((x, y)) => {
            return Some((key, substring(v.as_slice(), x, y)));
        },
        None => {},
    }
    match quoted_in(v, d, b, '\'') {
        Some((x, y)) => Some((key, substring(v.as_slice(), x, y))),
        None => None,
    }
}

/// Key and value of a `theme[key]="value"` line.
pub fn parse_line(line: &str) -> (r: Option<(String, String)>)
    ensures
        match parse_line_spec(line@) {
            Some(kv) => r matches Some(p) && p.0@ == kv.0 && p.1@ == kv.1,
            None => r is None,
        },
{
    let v = chars_of(line);
    assert(v@.subrange(0, v.len() as int) =~= line@);
    parse_line_in(&v, 0, v.len())
}

// ---------------------------------------------------------------------
// Applying a line
// ---------------------------------------------------------------------

/// A color field after the value `v`: empty resets, a hex color
/// replaces, anything else leaves it.
pub open spec fn color_after(c: Color, v: Seq<char>) -> Color {
    if v.len() == 0 {
        Color::Reset
    } else {
        match parse_hex_spec(v) {
            Some(n) => n,
            None => c,
        }
    }
}

/// A gradient stop after the value `v`: a hex color replaces it, anything
/// else (empty included) leaves it.
pub open spec fn stop_after(g: (u8, u8, u8), v: Seq<char>) -> (u8, u8, u8) {
    if v.len() == 0 {
        g
    } else {
        match parse_hex_spec(v) {
            Some(Color::Rgb(r, gr, b)) => (r, gr, b),
            _ => g,
        }
    }
}

/// Color keys.
pub open spec fn is_color_key(k: Seq<char>) -> bool {
    ||| k == "main_bg"@
    ||| k == "main_fg"@
    ||| k == "title"@
    ||| k == "hi_fg"@
    ||| k == "selected_bg"@
    ||| k == "selected_fg"@
    ||| k == "inactive_fg"@
    ||| k == "graph_text"@
    ||| k == "meter_bg"@
    ||| k == "proc_misc"@
    ||| k == "div_line"@
    ||| k == "session_id"@
    ||| k == "status_fg"@
    ||| k == "warning_fg"@
    ||| k == "cpu_box"@
    ||| k == "mem_box"@
    ||| k == "net_box"@
    ||| k == "proc_box"@
}

/// Gradient keys: `<gradient>_grad_<stop>`.
pub open spec fn is_gradient_key(k: Seq<char>) -> bool {
    ||| k == "cpu_grad_start"@
    ||| k == "cpu_grad_mid"@
    ||| k == "cpu_grad_end"@
    ||| k == "proc_grad_start"@
    ||| k == "proc_grad_mid"@
    ||| k == "proc_grad_end"@
    ||| k == "used_grad_start"@
    ||| k == "used_grad_mid"@
    ||| k == "used_grad_end"@
    ||| k == "free_grad_start"@
    ||| k == "free_grad_mid"@
    ||| k == "free_grad_end"@
    ||| k == "cached_grad_start"@
    ||| k == "cached_grad_mid"@
    ||| k == "cached_grad_end"@
}

/// A gradient after the value `v` for one of its stops.
pub open spec fn gradient_after(g: Gradient, stop: int, v: Seq<char>) -> Gradient {
    if stop == 0 {
        Gradient { start: stop_after(g.start, v), ..g }
    } else if stop == 1 {
        Gradient { mid: stop_after(g.mid, v), ..g }
    } else {
        Gradient { end: stop_after(g.end, v), ..g }
    }
}

/// The theme after the line `(key, value)`.
pub open spec fn apply_kv_spec(t: Theme, key: Seq<char>, v: Seq<char>) -> Theme {
    if key == "main_bg"@ {
        Theme { main_bg: color_after(t.main_bg, v), ..t }
    } else if key == "main_fg"@ {
        Theme { main_fg: color_after(t.main_fg, v), ..t }
    } else if key == "title"@ {
        Theme { title: color_after(t.title, v), ..t }
    } else if key == "hi_fg"@ {
        Theme { hi_fg: color_after(t.hi_fg, v), ..t }
    } else if key == "selected_bg"@ {
        Theme { selected_bg: color_after(t.selected_bg, v), ..t }
    } else if key == "selected_fg"@ {
        Theme { selected_fg: color_after(t.selected_fg, v), ..t }
    } else if key == "inactive_fg"@ {
        Theme { inactive_fg: color_after(t.inactive_fg, v), ..t }
    } else if key == "graph_text"@ {
        Theme { graph_text: color_after(t.graph_text, v), ..t }
    } else if key == "meter_bg"@ {
        Theme { meter_bg: color_after(t.meter_bg, v), ..t }
    } else if key == "proc_misc"@ {
        Theme { proc_misc: color_after(t.proc_misc, v), ..t }
    } else if key == "div_line"@ {
        Theme { div_line: color_after(t.div_line, v), ..t }
    } else if key == "session_id"@ {
        Theme { session_id: color_after(t.session_id, v), ..t }
    } else if key == "status_fg"@ {
        Theme { status_fg: color_after(t.status_fg, v), ..t }
    } else if key == "warning_fg"@ {
        Theme { warning_fg: color_after(t.warning_fg, v), ..t }
    } else if key == "cpu_box"@ {
        Theme { cpu_box: color_after(t.cpu_box, v), ..t }
    } else if key == "mem_box"@ {
        Theme { mem_box: color_after(t.mem_box, v), ..t }
    } else if key == "net_box"@ {
        Theme { net_box: color_after(t.net_box, v), ..t }
    } else if key == "proc_box"@ {
        Theme { proc_box: color_after(t.proc_box, v), ..t }
    } else if key == "cpu_grad_start"@ {
        Theme { cpu_grad: gradient_after(t.cpu_grad, 0, v), ..t }
    } else if key == "cpu_grad_mid"@ {
        Theme { cpu_grad: gradient_after(t.cpu_grad, 1, v), ..t }
    } else if key == "cpu_grad_end"@ {
        Theme { cpu_grad: gradient_after(t.cpu_grad, 2, v), ..t }
    } else if key == "proc_grad_start"@ {
        Theme { proc_grad: gradient_after(t.proc_grad, 0, v), ..t }
    } else if key == "proc_grad_mid"@ {
        Theme { proc_grad: gradient_after(t.proc_grad, 1, v), ..t }
    } else if key == "proc_grad_end"@ {
        Theme { proc_grad: gradient_after(t.proc_grad, 2, v), ..t }
    } else if key == "used_grad_start"@ {
        Theme { used_grad: gradient_after(t.used_grad, 0, v), ..t }
    } else if key == "used_grad_mid"@ {
        Theme { used_grad: gradient_after(t.used_grad, 1, v), ..t }
    } else if key == "used_grad_end"@ {
        Theme { used_grad: gradient_after(t.used_grad, 2, v), ..t }
    } else if key == "free_grad_start"@ {
        Theme { free_grad: gradient_after(t.free_grad, 0, v), ..t }
    } else if key == "free_grad_mid"@ {
        Theme { free_grad: gradient_after(t.free_grad, 1, v), ..t }
    } else if key == "free_grad_end"@ {
        Theme { free_grad: gradient_after(t.free_grad, 2, v), ..t }
    } else if key == "cached_grad_start"@ {
        Theme { cached_grad: gradient_after(t.cached_grad, 0, v), ..t }
    } else if key == "cached_grad_mid"@ {
        Theme { cached_grad: gradient_after(t.cached_grad, 1, v), ..t }
    } else if key == "cached_grad_end"@ {
        Theme { cached_grad: gradient_after(t.cached_grad, 2, v), ..t }
    } else {
        t
    }
}

fn str_eq(a: &str, b: &str) -> (r: bool)
    ensures
        r == (a@ == b@),
{
    String::from_str(a) == String::from_str(b)
}

fn color_after_exec(c: Color, v: &str) -> (r: Color)
    ensures
        r == color_after(c, v@),
{
    if v.is_empty() {
        Color::Reset
    } else {
        match parse_hex(v) {
            Some(n) => n,
            None => c,
        }
    }
}

fn stop_after_exec(g: (u8, u8, u8), v: &str) -> (r: (u8, u8, u8))
    ensures
        r == stop_after(g, v@),
{
    if v.is_empty() {
        return g;
    }
    match parse_hex(v) {
        Some(Color::Rgb(r, gr, b)) => (r, gr, b),
        _ => g,
    }
}

/// Applies one `(key, value)` pair. Unknown keys and unparsable values
/// leave the theme as it was.
pub fn apply_kv(theme: &mut Theme, key: &str, value: &str)
    ensures
        *final(theme) == apply_kv_spec(*old(theme), key@, value@),
{
    if str_eq(key, "main_bg") {
        theme.main_bg = color_after_exec(theme.main_bg, value);
    } else if str_eq(key, "main_fg") {
        theme.main_fg = color_after_exec(theme.main_fg, value);
    } else if str_eq(key, "title") {
        theme.title = color_after_exec(theme.title, value);
    } else if str_eq(key, "hi_fg") {
        theme.hi_fg = color_after_exec(theme.hi_fg, value);
    } else if str_eq(key, "selected_bg") {
        theme.selected_bg = color_after_exec(theme.selected_bg, value);
    } else if str_eq(key, "selected_fg") {
        theme.selected_fg = color_after_exec(theme.selected_fg, value);
    } else if str_eq(key, "inactive_fg") {
        theme.inactive_fg = color_after_exec(theme.inactive_fg, value);
    } else if str_eq(key, "graph_text") {
        theme.graph_text = color_after_exec(theme.graph_text, value);
    } else if str_eq(key, "meter_bg") {
        theme.meter_bg = color_after_exec(theme.meter_bg, value);
    } else if str_eq(key, "proc_misc") {
        theme.proc_misc = color_after_exec(theme.proc_misc, value);
    } else if str_eq(key, "div_line") {
        theme.div_line = color_after_exec(theme.div_line, value);
    } else if str_eq(key, "session_id") {
        theme.session_id = color_after_exec(theme.session_id, value);
    } else if str_eq(key, "status_fg") {
        theme.status_fg = color_after_exec(theme.status_fg, value);
    } else if str_eq(key, "warning_fg") {
        theme.warning_fg = color_after_exec(theme.warning_fg, value);
    } else if str_eq(key, "cpu_box") {
        theme.cpu_box = color_after_exec(theme.cpu_box, value);
    } else if str_eq(key, "mem_box") {
        theme.mem_box = color_after_exec(theme.mem_box, value);
    } else if str_eq(key, "net_box") {
        theme.net_box = color_after_exec(theme.net_box, value);
    } else if str_eq(key, "proc_box") {
        theme.proc_box = color_after_exec(theme.proc_box, value);
    } else if str_eq(key, "cpu_grad_start") {
        theme.cpu_grad.start = stop_after_exec(theme.cpu_grad.start, value);
    } else if str_eq(key, "cpu_grad_mid") {
        theme.cpu_grad.mid = stop_after_exec(theme.cpu_grad.mid, value);
    } else if str_eq(key, "cpu_grad_end") {
        theme.cpu_grad.end = stop_after_exec(theme.cpu_grad.end, value);
    } else if str_eq(key, "proc_grad_start") {
        theme.proc_grad.start = stop_after_exec(theme.proc_grad.start, value);
    } else if str_eq(key, "proc_grad_mid") {
        theme.proc_grad.mid = stop_after_exec(theme.proc_grad.mid, value);
    } else if str_eq(key, "proc_grad_end") {
        theme.proc_grad.end = stop_after_exec(theme.proc_grad.end, value);
    } else if str_eq(key, "used_grad_start") {
        theme.used_grad.start = stop_after_exec(theme.used_grad.start, value);
    } else if str_eq(key, "used_grad_mid") {
        theme.used_grad.mid = stop_after_exec(theme.used_grad.mid, value);
    } else if str_eq(key, "used_grad_end") {
        theme.used_grad.end = stop_after_exec(theme.used_grad.end, value);
    } else if str_eq(key, "free_grad_start") {
        theme.free_grad.start = stop_after_exec(theme.free_grad.start, value);
    } else if str_eq(key, "free_grad_mid") {
        theme.free_grad.mid = stop_after_exec(theme.free_grad.mid, value);
    } else if str_eq(key, "free_grad_end") {
        theme.free_grad.end = stop_after_exec(theme.free_grad.end, value);
    } else if str_eq(key, "cached_grad_start") {
        theme.cached_grad.start = stop_after_exec(theme.cached_grad.start, value);
    } else if str_eq(key, "cached_grad_mid") {
        theme.cached_grad.mid = stop_after_exec(theme.cached_grad.mid, value);
    } else if str_eq(key, "cached_grad_end") {
        theme.cached_grad.end = stop_after_exec(theme.cached_grad.end, value);
    }
}

// ---------------------------------------------------------------------
// Bodies
// ---------------------------------------------------------------------

/// Index of the first `\n` at or after `from`, or the length.
pub open spec fn line_end(s: Seq<char>, from: int) -> int {
    match index_of(s, '\n', from) {
        Some(e) => e,
        None => s.len() as int,
    }
}

/// The theme after the lines of `s` from `from` on. Lines are split at
/// `\n`; a `\r` before it is whitespace, which every line is trimmed of,
/// so this agrees with `str::lines`.
pub open spec fn apply_lines(t: Theme, s: Seq<char>, from: int) -> Theme
    decreases s.len() - from,
{
    if from < 0 || from > s.len() {
        t
    } else {
        proof {
            lemma_index_of(s, '\n', from);
        }
        let e = line_end(s, from);
        let t2 = match parse_line_spec(s.subrange(from, e)) {
            Some(kv) => apply_kv_spec(t, kv.0, kv.1),
            None => t,
        };
        if e >= s.len() {
            t2
        } else {
            apply_lines(t2, s, e + 1)
        }
    }
}

/// `t` with the name replaced.
pub open spec fn renamed(t: Theme, name: String) -> Theme {
    Theme { name, ..t }
}

fn copy_named(base: &Theme, name: &str) -> (r: Theme)
    ensures
        r.name@ == name@,
        r == renamed(*base, r.name),
{
    Theme {
        name: String::from_str(name),
        main_bg: base.main_bg,
        main_fg: base.main_fg,
        title: base.title,
        hi_fg: base.hi_fg,
        selected_bg: base.selected_bg,
        selected_fg: base.selected_fg,
        inactive_fg: base.inactive_fg,
        graph_text: base.graph_text,
        meter_bg: base.meter_bg,
        proc_misc: base.proc_misc,
        div_line: base.div_line,
        session_id: base.session_id,
        status_fg: base.status_fg,
        warning_fg: base.warning_fg,
        cpu_box: base.cpu_box,
        mem_box: base.mem_box,
        net_box: base.net_box,
        proc_box: base.proc_box,
        cpu_grad: base.cpu_grad,
        proc_grad: base.proc_grad,
        used_grad: base.used_grad,
        free_grad: base.free_grad,
        cached_grad: base.cached_grad,
    }
}

/// Parses a btop-style theme body over `base`: every line of the form
/// `theme[key]="value"` overrides one field; the result is named `name`.
pub fn parse_theme_body(base: &Theme, body: &str, name: &str) -> (r: Theme)
    ensures
        r.name@ == name@,
        r == apply_lines(renamed(*base, r.name), body@, 0),
{
    let v = chars_of(body);
    let mut theme = copy_named(base, name);
    let ghost t0 = theme;
    let mut from: usize = 0;
    let mut done = false;
    while !done
        invariant
            v@ == body@,
            theme.name == t0.name,
            done ==> theme == apply_lines(t0, v@, 0),
            !done ==> from <= v.len() && apply_lines(theme, v@, from as int)
                == apply_lines(t0, v@, 0),
        decreases (if done {
            0
        } else {
            v.len() + 1 - from
        }),
    {
        let mut e = from;
        while e < v.len() && v[e] != '\n'
            invariant
                from <= e <= v.len(),
                forall|j: int| from <= j < e ==> v@[j] != '\n',
            decreases v.len() - e,
        {
            e = e + 1;
        }
        proof {
            lemma_index_of(v@, '\n', from as int);
            if index_of(v@, '\n', from as int) is Some {
                let x = index_of(v@, '\n', from as int)->0;
                if x < e {
                    assert(v@[x] != '\n');
                }
            }
            assert(line_end(v@, from as int) == e);
        }
        match parse_line_in(&v, from, e) {
            Some((k, val)) => {
                apply_kv(&mut theme, k.as_str(), val.as_str());
            },
            None => {},
        }
        if e >= v.len() {
            done = true;
        } else {
            from = e + 1;
        }
    }
    theme
}

/// The first body in `table` filed under `name`.
pub open spec fn lookup_spec(table: Seq<(String, String)>, name: Seq<char>) -> Option<Seq<char>>
    decreases table.len(),
{
    if table.len() == 0 {
        None
    } else if table[0].0@ == name {
        Some(table[0].1@)
    } else {
        lookup_spec(table.drop_first(), name)
    }
}

/// Looks up a bundled theme's body by name in the `(name, body)` table.
pub fn lookup(table: &Vec<(String, String)>, name: &str) -> (r: Option<String>)
    ensures
        crate::interpolation::opt_view(r) == lookup_spec(table@, name@),
{
    let n = String::from_str(name);
    let mut i: usize = 0;
    assert(table@.subrange(0, table.len() as int) =~= table@);
    while i < table.len()
        invariant
            i <= table.len(),
            n@ == name@,
            lookup_spec(table@, name@) == lookup_spec(table@.subrange(i as int, table.len() as int), name@),
        decreases table.len() - i,
    {
        let ghost rest = table@.subrange(i as int, table.len() as int);
        assert(rest[0] == table@[i as int]);
        if table[i].0 == n {
            return Some(table[i].1.clone());
        }
        assert(rest.drop_first() =~= table@.subrange(i + 1, table.len() as int));
        i = i + 1;
    }
    None
}


/// A line whose key names no color and no gradient stop leaves the theme
/// as it was.
pub proof fn law_unknown_key_ignored(t: Theme, key: Seq<char>, value: Seq<char>)
    requires
        !is_color_key(key),
        !is_gradient_key(key),
    ensures
        apply_kv_spec(t, key, value) == t,
{
}

/// An empty value resets a color field to the terminal default and leaves
/// a gradient stop as it was.
pub proof fn law_empty_value(t: Theme, g: (u8, u8, u8), c: Color)
    ensures
        color_after(c, seq![]) == Color::Reset,
        stop_after(g, seq![]) == g,
        apply_kv_spec(t, "main_bg"@, seq![]).main_bg == Color::Reset,
        apply_kv_spec(t, "cpu_grad_start"@, seq![]).cpu_grad == t.cpu_grad,
{
}
/// The lengths of the theme keys, and that keys of equal length differ:
/// together, the keys are pairwise different strings.
proof fn lemma_theme_keys_distinct()
    ensures
        "main_bg"@.len() == 7,
        "main_fg"@.len() == 7,
        "title"@.len() == 5,
        "hi_fg"@.len() == 5,
        "selected_bg"@.len() == 11,
        "selected_fg"@.len() == 11,
        "inactive_fg"@.len() == 11,
        "graph_text"@.len() == 10,
        "meter_bg"@.len() == 8,
        "proc_misc"@.len() == 9,
        "div_line"@.len() == 8,
        "session_id"@.len() == 10,
        "status_fg"@.len() == 9,
        "warning_fg"@.len() == 10,
        "cpu_box"@.len() == 7,
        "mem_box"@.len() == 7,
        "net_box"@.len() == 7,
        "proc_box"@.len() == 8,
        "cpu_grad_start"@.len() == 14,
        "cpu_grad_mid"@.len() == 12,
        "cpu_grad_end"@.len() == 12,
        "proc_grad_start"@.len() == 15,
        "proc_grad_mid"@.len() == 13,
        "proc_grad_end"@.len() == 13,
        "used_grad_start"@.len() == 15,
        "used_grad_mid"@.len() == 13,
        "used_grad_end"@.len() == 13,
        "free_grad_start"@.len() == 15,
        "free_grad_mid"@.len() == 13,
        "free_grad_end"@.len() == 13,
        "cached_grad_start"@.len() == 17,
        "cached_grad_mid"@.len() == 15,
        "cached_grad_end"@.len() == 15,
        "main_fg"@ != "main_bg"@,
        "hi_fg"@ != "title"@,
        "selected_fg"@ != "selected_bg"@,
        "inactive_fg"@ != "selected_bg"@,
        "inactive_fg"@ != "selected_fg"@,
        "div_line"@ != "meter_bg"@,
        "session_id"@ != "graph_text"@,
        "status_fg"@ != "proc_misc"@,
        "warning_fg"@ != "graph_text"@,
        "warning_fg"@ != "session_id"@,
        "cpu_box"@ != "main_bg"@,
        "cpu_box"@ != "main_fg"@,
        "mem_box"@ != "main_bg"@,
        "mem_box"@ != "main_fg"@,
        "mem_box"@ != "cpu_box"@,
        "net_box"@ != "main_bg"@,
        "net_box"@ != "main_fg"@,
        "net_box"@ != "cpu_box"@,
        "net_box"@ != "mem_box"@,
        "proc_box"@ != "meter_bg"@,
        "proc_box"@ != "div_line"@,
        "cpu_grad_end"@ != "cpu_grad_mid"@,
        "proc_grad_end"@ != "proc_grad_mid"@,
        "used_grad_start"@ != "proc_grad_start"@,
        "used_grad_mid"@ != "proc_grad_mid"@,
        "used_grad_mid"@ != "proc_grad_end"@,
        "used_grad_end"@ != "proc_grad_mid"@,
        "used_grad_end"@ != "proc_grad_end"@,
        "used_grad_end"@ != "used_grad_mid"@,
        "free_grad_start"@ != "proc_grad_start"@,
        "free_grad_start"@ != "used_grad_start"@,
        "free_grad_mid"@ != "proc_grad_mid"@,
        "free_grad_mid"@ != "proc_grad_end"@,
        "free_grad_mid"@ != "used_grad_mid"@,
        "free_grad_mid"@ != "used_grad_end"@,
        "free_grad_end"@ != "proc_grad_mid"@,
        "free_grad_end"@ != "proc_grad_end"@,
        "free_grad_end"@ != "used_grad_mid"@,
        "free_grad_end"@ != "used_grad_end"@,
        "free_grad_end"@ != "free_grad_mid"@,
        "cached_grad_mid"@ != "proc_grad_start"@,
        "cached_grad_mid"@ != "used_grad_start"@,
        "cached_grad_mid"@ != "free_grad_start"@,
        "cached_grad_end"@ != "proc_grad_start"@,
        "cached_grad_end"@ != "used_grad_start"@,
        "cached_grad_end"@ != "free_grad_start"@,
        "cached_grad_end"@ != "cached_grad_mid"@,
{
    reveal_strlit("main_bg");
    reveal_strlit("main_fg");
    reveal_strlit("title");
    reveal_strlit("hi_fg");
    reveal_strlit("selected_bg");
    reveal_strlit("selected_fg");
    reveal_strlit("inactive_fg");
    reveal_strlit("graph_text");
    reveal_strlit("meter_bg");
    reveal_strlit("proc_misc");
    reveal_strlit("div_line");
    reveal_strlit("session_id");
    reveal_strlit("status_fg");
    reveal_strlit("warning_fg");
    reveal_strlit("cpu_box");
    reveal_strlit("mem_box");
    reveal_strlit("net_box");
    reveal_strlit("proc_box");
    reveal_strlit("cpu_grad_start");
    reveal_strlit("cpu_grad_mid");
    reveal_strlit("cpu_grad_end");
    reveal_strlit("proc_grad_start");
    reveal_strlit("proc_grad_mid");
    reveal_strlit("proc_grad_end");
    reveal_strlit("used_grad_start");
    reveal_strlit("used_grad_mid");
    reveal_strlit("used_grad_end");
    reveal_strlit("free_grad_start");
    reveal_strlit("free_grad_mid");
    reveal_strlit("free_grad_end");
    reveal_strlit("cached_grad_start");
    reveal_strlit("cached_grad_mid");
    reveal_strlit("cached_grad_end");
    assert("main_fg"@[5] != "main_bg"@[5]);
    assert("hi_fg"@[0] != "title"@[0]);
    assert("selected_fg"@[9] != "selected_bg"@[9]);
    assert("inactive_fg"@[0] != "selected_bg"@[0]);
    assert("inactive_fg"@[0] != "selected_fg"@[0]);
    assert("div_line"@[0] != "meter_bg"@[0]);
    assert("session_id"@[0] != "graph_text"@[0]);
    assert("status_fg"@[0] != "proc_misc"@[0]);
    assert("warning_fg"@[0] != "graph_text"@[0]);
    assert("warning_fg"@[0] != "session_id"@[0]);
    assert("cpu_box"@[0] != "main_bg"@[0]);
    assert("cpu_box"@[0] != "main_fg"@[0]);
    assert("mem_box"@[1] != "main_bg"@[1]);
    assert("mem_box"@[1] != "main_fg"@[1]);
    assert("mem_box"@[0] != "cpu_box"@[0]);
    assert("net_box"@[0] != "main_bg"@[0]);
    assert("net_box"@[0] != "main_fg"@[0]);
    assert("net_box"@[0] != "cpu_box"@[0]);
    assert("net_box"@[0] != "mem_box"@[0]);
    assert("proc_box"@[0] != "meter_bg"@[0]);
    assert("proc_box"@[0] != "div_line"@[0]);
    assert("cpu_grad_end"@[9] != "cpu_grad_mid"@[9]);
    assert("proc_grad_end"@[10] != "proc_grad_mid"@[10]);
    assert("used_grad_start"@[0] != "proc_grad_start"@[0]);
    assert("used_grad_mid"@[0] != "proc_grad_mid"@[0]);
    assert("used_grad_mid"@[0] != "proc_grad_end"@[0]);
    assert("used_grad_end"@[0] != "proc_grad_mid"@[0]);
    assert("used_grad_end"@[0] != "proc_grad_end"@[0]);
    assert("used_grad_end"@[10] != "used_grad_mid"@[10]);
    assert("free_grad_start"@[0] != "proc_grad_start"@[0]);
    assert("free_grad_start"@[0] != "used_grad_start"@[0]);
    assert("free_grad_mid"@[0] != "proc_grad_mid"@[0]);
    assert("free_grad_mid"@[0] != "proc_grad_end"@[0]);
    assert("free_grad_mid"@[0] != "used_grad_mid"@[0]);
    assert("free_grad_mid"@[0] != "used_grad_end"@[0]);
    assert("free_grad_end"@[0] != "proc_grad_mid"@[0]);
    assert("free_grad_end"@[0] != "proc_grad_end"@[0]);
    assert("free_grad_end"@[0] != "used_grad_mid"@[0]);
    assert("free_grad_end"@[0] != "used_grad_end"@[0]);
    assert("free_grad_end"@[10] != "free_grad_mid"@[10]);
    assert("cached_grad_mid"@[0] != "proc_grad_start"@[0]);
    assert("cached_grad_mid"@[0] != "used_grad_start"@[0]);
    assert("cached_grad_mid"@[0] != "free_grad_start"@[0]);
    assert("cached_grad_end"@[0] != "proc_grad_start"@[0]);
    assert("cached_grad_end"@[0] != "used_grad_start"@[0]);
    assert("cached_grad_end"@[0] != "free_grad_start"@[0]);
    assert("cached_grad_end"@[12] != "cached_grad_mid"@[12]);
}

/// A color key given a hex color sets exactly its own field to that color;
/// every other field of the theme is unchanged.
pub proof fn law_color_key_sets_its_field(t: Theme, v: Seq<char>, c: Color)
    requires
        parse_hex_spec(v) == Some(c),
    ensures
        apply_kv_spec(t, "main_bg"@, v) == (Theme { main_bg: c, ..t }),
        apply_kv_spec(t, "main_fg"@, v) == (Theme { main_fg: c, ..t }),
        apply_kv_spec(t, "title"@, v) == (Theme { title: c, ..t }),
        apply_kv_spec(t, "hi_fg"@, v) == (Theme { hi_fg: c, ..t }),
        apply_kv_spec(t, "selected_bg"@, v) == (Theme { selected_bg: c, ..t }),
        apply_kv_spec(t, "selected_fg"@, v) == (Theme { selected_fg: c, ..t }),
        apply_kv_spec(t, "inactive_fg"@, v) == (Theme { inactive_fg: c, ..t }),
        apply_kv_spec(t, "graph_text"@, v) == (Theme { graph_text: c, ..t }),
        apply_kv_spec(t, "meter_bg"@, v) == (Theme { meter_bg: c, ..t }),
        apply_kv_spec(t, "proc_misc"@, v) == (Theme { proc_misc: c, ..t }),
        apply_kv_spec(t, "div_line"@, v) == (Theme { div_line: c, ..t }),
        apply_kv_spec(t, "session_id"@, v) == (Theme { session_id: c, ..t }),
        apply_kv_spec(t, "status_fg"@, v) == (Theme { status_fg: c, ..t }),
        apply_kv_spec(t, "warning_fg"@, v) == (Theme { warning_fg: c, ..t }),
        apply_kv_spec(t, "cpu_box"@, v) == (Theme { cpu_box: c, ..t }),
        apply_kv_spec(t, "mem_box"@, v) == (Theme { mem_box: c, ..t }),
        apply_kv_spec(t, "net_box"@, v) == (Theme { net_box: c, ..t }),
        apply_kv_spec(t, "proc_box"@, v) == (Theme { proc_box: c, ..t }),
{
    lemma_theme_keys_distinct();
}

/// A gradient key `<g>_grad_<stop>` given a hex color sets exactly that
/// stop of that gradient to the color; the other stops of the same
/// gradient and every other field are unchanged.
pub proof fn law_gradient_key_sets_its_stop(t: Theme, v: Seq<char>, r: u8, gr: u8, b: u8)
    requires
        parse_hex_spec(v) == Some(Color::Rgb(r, gr, b)),
    ensures
        apply_kv_spec(t, "cpu_grad_start"@, v) == (Theme { cpu_grad: Gradient { start: (r, gr, b), ..t.cpu_grad }, ..t }),
        apply_kv_spec(t, "cpu_grad_mid"@, v) == (Theme { cpu_grad: Gradient { mid: (r, gr, b), ..t.cpu_grad }, ..t }),
        apply_kv_spec(t, "cpu_grad_end"@, v) == (Theme { cpu_grad: Gradient { end: (r, gr, b), ..t.cpu_grad }, ..t }),
        apply_kv_spec(t, "proc_grad_start"@, v) == (Theme { proc_grad: Gradient { start: (r, gr, b), ..t.proc_grad }, ..t }),
        apply_kv_spec(t, "proc_grad_mid"@, v) == (Theme { proc_grad: Gradient { mid: (r, gr, b), ..t.proc_grad }, ..t }),
        apply_kv_spec(t, "proc_grad_end"@, v) == (Theme { proc_grad: Gradient { end: (r, gr, b), ..t.proc_grad }, ..t }),
        apply_kv_spec(t, "used_grad_start"@, v) == (Theme { used_grad: Gradient { start: (r, gr, b), ..t.used_grad }, ..t }),
        apply_kv_spec(t, "used_grad_mid"@, v) == (Theme { used_grad: Gradient { mid: (r, gr, b), ..t.used_grad }, ..t }),
        apply_kv_spec(t, "used_grad_end"@, v) == (Theme { used_grad: Gradient { end: (r, gr, b), ..t.used_grad }, ..t }),
        apply_kv_spec(t, "free_grad_start"@, v) == (Theme { free_grad: Gradient { start: (r, gr, b), ..t.free_grad }, ..t }),
        apply_kv_spec(t, "free_grad_mid"@, v) == (Theme { free_grad: Gradient { mid: (r, gr, b), ..t.free_grad }, ..t }),
        apply_kv_spec(t, "free_grad_end"@, v) == (Theme { free_grad: Gradient { end: (r, gr, b), ..t.free_grad }, ..t }),
        apply_kv_spec(t, "cached_grad_start"@, v) == (Theme { cached_grad: Gradient { start: (r, gr, b), ..t.cached_grad }, ..t }),
        apply_kv_spec(t, "cached_grad_mid"@, v) == (Theme { cached_grad: Gradient { mid: (r, gr, b), ..t.cached_grad }, ..t }),
        apply_kv_spec(t, "cached_grad_end"@, v) == (Theme { cached_grad: Gradient { end: (r, gr, b), ..t.cached_grad }, ..t }),
{
    lemma_theme_keys_distinct();
}
proof fn lemma_index_of_first(s: Seq<char>, c: char, from: int, e: int)
    requires
        0 <= from <= e < s.len(),
        s[e] == c,
        forall|k: int| from <= k < e ==> s[k] != c,
    ensures
        index_of(s, c, from) == Some(e),
    decreases e - from,
{
    if from < e {
        lemma_index_of_first(s, c, from + 1, e);
    }
}

/// A line written `theme[key]="value"`, with a key free of `]`, parses
/// back to exactly that key and that value.
pub proof fn law_parse_line_round_trip(k: Seq<char>, v: Seq<char>)
    requires
        forall|i: int| 0 <= i < k.len() ==> k[i] != ']',
    ensures
        parse_line_spec("theme["@ + k + seq![']', '=', '"'] + v + seq!['"']) == Some((k, v)),
{
    reveal_strlit("theme[");
    let head = "theme["@;
    let tail = seq![']', '=', '"'] + v + seq!['"'];
    let line = head + k + tail;
    assert("theme["@ + k + seq![']', '=', '"'] + v + seq!['"'] =~= line);
    assert(line[0] == 't');
    assert(line.last() == '"');
    assert(trim_start(line) == line);
    assert(crate::text::trim_end(line) == line);
    assert(trim(line) == line);
    assert(line.subrange(0, 6) =~= head);
    assert(has_prefix(line, head));
    let rest = line.subrange(6, line.len() as int);
    assert(rest =~= k + tail);
    assert(rest[k.len() as int] == ']');
    lemma_index_of_first(rest, ']', 0, k.len() as int);
    let after0 = rest.subrange(k.len() as int + 1, rest.len() as int);
    assert(after0 =~= seq!['=', '"'] + v + seq!['"']);
    assert(after0[0] == '=');
    assert(trim_start(after0) == after0);
    let vp = after0.drop_first();
    assert(vp =~= seq!['"'] + v + seq!['"']);
    assert(vp[0] == '"');
    assert(trim_start(vp) == vp);
    assert(vp.drop_first().last() == '"');
    assert(vp.drop_first().drop_last() =~= v);
    assert(rest.subrange(0, k.len() as int) =~= k);
}

proof fn lemma_index_of_shift(p: Seq<char>, r: Seq<char>, j: int, c: char)
    requires
        0 <= j,
    ensures
        index_of(p + r, c, p.len() + j) == match index_of(r, c, j) {
            Some(e) => Some(p.len() + e),
            None => None::<int>,
        },
    decreases r.len() - j,
{
    if j < r.len() {
        assert((p + r)[p.len() + j] == r[j]);
        if r[j] != c {
            lemma_index_of_shift(p, r, j + 1, c);
        }
    }
}

proof fn lemma_apply_lines_shift(t: Theme, p: Seq<char>, r: Seq<char>, j: int)
    requires
        0 <= j <= r.len(),
    ensures
        apply_lines(t, p + r, p.len() + j) == apply_lines(t, r, j),
    decreases r.len() - j,
{
    let s = p + r;
    let n = p.len() as int;
    lemma_index_of_shift(p, r, j, '\n');
    lemma_index_of(r, '\n', j);
    let e = line_end(r, j);
    assert(line_end(s, n + j) == n + e);
    assert(s.subrange(n + j, n + e) =~= r.subrange(j, e));
    if e < r.len() {
        let t2 = match parse_line_spec(r.subrange(j, e)) {
            Some(kv) => apply_kv_spec(t, kv.0, kv.1),
            None => t,
        };
        lemma_apply_lines_shift(t2, p, r, e + 1);
    }
}

/// A theme body is read line by line: the body `line \n rest` gives the
/// theme that `rest` gives over the theme after `line` alone.
pub proof fn law_theme_lines_compose(t: Theme, line: Seq<char>, rest: Seq<char>)
    requires
        forall|i: int| 0 <= i < line.len() ==> line[i] != '\n',
    ensures
        apply_lines(t, line + seq!['\n'] + rest, 0) == apply_lines(apply_lines(t, line, 0), rest, 0),
{
    let p = line + seq!['\n'];
    let s = p + rest;
    assert(line + seq!['\n'] + rest =~= s);
    assert(s[line.len() as int] == '\n');
    lemma_index_of_first(s, '\n', 0, line.len() as int);
    assert(s.subrange(0, line.len() as int) =~= line);
    lemma_index_of(line, '\n', 0);
    assert(line.subrange(0, line.len() as int) =~= line);
    lemma_apply_lines_shift(apply_lines(t, line, 0), p, rest, 0);
}
} // verus!
