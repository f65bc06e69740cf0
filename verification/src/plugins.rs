//! The catalogue of compiled-in plugins (`abtop --list-plugins`) and the
//! context a plugin worker is started with.
use vstd::prelude::*;
use std::sync::Arc;
use std::sync::atomic::AtomicBool;
use crate::text::{chars_of, is_space, string_of, utf8_len};

verus! {

/// Context handed to a plugin at startup: the events socket, a runtime
/// pause flag (toggled from the registry) and the process-exit flag.
#[derive(Clone)]
pub struct PluginCtx {
    pub socket_path: String,
    pub enabled: Arc<AtomicBool>,
    pub shutdown: Arc<AtomicBool>,
}

/// Static metadata of one compiled-in plugin.
#[derive(Clone, Debug)]
pub struct PluginInfo {
    /// Plugin identifier.
    pub name: &'static str,
    /// Cargo feature that gates the plugin.
    pub feature: &'static str,
    /// Whether the feature is on by default.
    pub default_on: bool,
    /// Whether the plugin starts without an explicit flag.
    pub startup_enabled: bool,
    /// One-paragraph description.
    pub description: &'static str,
    /// One-paragraph summary of the startup behaviour.
    pub startup: &'static str,
    /// Copy-pasteable TOML block for `~/.config/abtop/config.toml`.
    pub example_config: &'static str,
    /// Where the documentation lives.
    pub docs_pointer: &'static str,
}

/// Every field of the notifier's catalogue entry.
pub open spec fn is_notifier_entry(p: PluginInfo) -> bool {
    &&& p.name@ == "notifier"@
    &&& p.feature@ == "plugin-notifier"@
    &&& !p.default_on
    &&& !p.startup_enabled
    &&& p.description@ == "Matches events against user-defined rules and shows desktop notifications through built-in backends (osascript, notify-send, terminal-notifier, stderr)."@
    &&& p.startup@ == "Starts when [plugins.notifier] enabled = true or with --plugin-notify; toggle at runtime from the events panel."@
    &&& p.example_config@ == "[plugins.notifier]\nenabled = true\nbackend = \"auto\"\ndebounce_ms = 5000\n\n[[plugins.notifier.rule]]\non = [\"StatusChanged\"]\ntitle = \"{kind}\"\nbody = \"{session_id}\"\n"@
    &&& p.docs_pointer@ == "README.md#plugins"@
}

/// Every field of the System Notifier's catalogue entry.
pub open spec fn is_system_notifier_entry(p: PluginInfo) -> bool {
    &&& p.name@ == "system_notifier"@
    &&& p.feature@ == "plugin-system-notifier"@
    &&& !p.default_on
    &&& !p.startup_enabled
    &&& p.description@ == "Hands every matching event to a user-supplied conduit program: title and body in environment variables, the full event JSON on stdin."@
    &&& p.startup@ == "Starts when [plugins.system_notifier] enabled = true and a conduit is set; toggle at runtime from the events panel."@
    &&& p.example_config@ == "[plugins.system_notifier]\nenabled = true\nconduit = \"~/bin/notify.sh\"\n"@
    &&& p.docs_pointer@ == "README.md#plugins"@
}

/// Catalogue entry of the notifier plugin.
pub fn notifier_info() -> (r: PluginInfo)
    ensures
        is_notifier_entry(r),
{
    PluginInfo {
        name: "notifier",
        feature: "plugin-notifier",
        default_on: false,
        startup_enabled: false,
        description: "Matches events against user-defined rules and shows desktop notifications through built-in backends (osascript, notify-send, terminal-notifier, stderr).",
        startup: "Starts when [plugins.notifier] enabled = true or with --plugin-notify; toggle at runtime from the events panel.",
        example_config: "[plugins.notifier]\nenabled = true\nbackend = \"auto\"\ndebounce_ms = 5000\n\n[[plugins.notifier.rule]]\non = [\"StatusChanged\"]\ntitle = \"{kind}\"\nbody = \"{session_id}\"\n",
        docs_pointer: "README.md#plugins",
    }
}

/// Catalogue entry of the System Notifier plugin.
pub fn system_notifier_info() -> (r: PluginInfo)
    ensures
        is_system_notifier_entry(r),
{
    PluginInfo {
        name: "system_notifier",
        feature: "plugin-system-notifier",
        default_on: false,
        startup_enabled: false,
        description: "Hands every matching event to a user-supplied conduit program: title and body in environment variables, the full event JSON on stdin.",
        startup: "Starts when [plugins.system_notifier] enabled = true and a conduit is set; toggle at runtime from the events panel.",
        example_config: "[plugins.system_notifier]\nenabled = true\nconduit = \"~/bin/notify.sh\"\n",
        docs_pointer: "README.md#plugins",
    }
}

/// The plugins compiled into this binary: the notifier, then the System
/// Notifier.
pub fn list_available() -> (r: Vec<PluginInfo>)
    ensures
        r@.len() == 2,
        is_notifier_entry(r@[0]),
        is_system_notifier_entry(r@[1]),
{
    let mut v: Vec<PluginInfo> = Vec::new();
    v.push(notifier_info());
    v.push(system_notifier_info());
    v
}

// ---------------------------------------------------------------------
// Word wrapping
// ---------------------------------------------------------------------

/// Payload width of a wrapped paragraph, in bytes.
pub const WRAP_WIDTH: usize = 62;

/// Number of leading non-whitespace characters of `s`.
pub open spec fn word_len(s: Seq<char>) -> nat
    decreases s.len(),
{
    if s.len() == 0 || is_space(s[0]) {
        0
    } else {
        1 + word_len(s.drop_first())
    }
}

/// The whitespace-separated words of `s` (`str::split_whitespace`).
pub open spec fn words(s: Seq<char>) -> Seq<Seq<char>>
    decreases s.len(),
{
    if s.len() == 0 {
        seq![]
    } else if is_space(s[0]) {
        words(s.drop_first())
    } else {
        proof {
            lemma_word_len_bound(s);
        }
        seq![s.subrange(0, word_len(s) as int)] + words(s.subrange(word_len(s) as int, s.len() as int))
    }
}

pub proof fn lemma_word_len_bound(s: Seq<char>)
    ensures
        word_len(s) <= s.len(),
        s.len() > 0 && !is_space(s[0]) ==> word_len(s) >= 1,
    decreases s.len(),
{
    if s.len() > 0 && !is_space(s[0]) {
        lemma_word_len_bound(s.drop_first());
    }
}

/// Wrapping state: output so far, whether the first line is still to
/// come, and the line being filled.
pub struct WrapState {
    pub out: Seq<char>,
    pub first: bool,
    pub line: Seq<char>,
}

/// The label of the next emitted line.
pub open spec fn lead(prefix: Seq<char>, pad: Seq<char>, first: bool) -> Seq<char> {
    if first {
        prefix
    } else {
        pad
    }
}

/// One word into the wrapping state: a word that would push a non-empty
/// line past [`WRAP_WIDTH`] bytes starts a new line.
pub open spec fn wrap_step(st: WrapState, prefix: Seq<char>, pad: Seq<char>, w: Seq<char>) -> WrapState {
    let extra = if st.line.len() == 0 {
        utf8_len(w)
    } else {
        utf8_len(st.line) + 1 + utf8_len(w)
    };
    if extra > WRAP_WIDTH && st.line.len() > 0 {
        WrapState { out: st.out + lead(prefix, pad, st.first) + st.line + seq!['\n'], first: false, line: w }
    } else if st.line.len() == 0 {
        WrapState { line: w, ..st }
    } else {
        WrapState { line: st.line + seq![' '] + w, ..st }
    }
}

/// Wrapping state after the words `ws`.
pub open spec fn wrap_words(prefix: Seq<char>, pad: Seq<char>, ws: Seq<Seq<char>>) -> WrapState
    decreases ws.len(),
{
    if ws.len() == 0 {
        WrapState { out: seq![], first: true, line: seq![] }
    } else {
        wrap_step(wrap_words(prefix, pad, ws.drop_last()), prefix, pad, ws.last())
    }
}

/// `n` spaces.
pub open spec fn spaces(n: nat) -> Seq<char> {
    Seq::new(n, |i: int| ' ')
}

/// `text` wrapped to [`WRAP_WIDTH`] bytes of payload: the first line
/// after `prefix`, the others after `indent` spaces.
pub open spec fn wrapped(prefix: Seq<char>, text: Seq<char>, indent: nat) -> Seq<char> {
    let st = wrap_words(prefix, spaces(indent), words(text));
    if st.line.len() == 0 {
        st.out
    } else {
        st.out + lead(prefix, spaces(indent), st.first) + st.line + seq!['\n']
    }
}

fn push_str(out: &mut Vec<char>, s: &str)
    ensures
        final(out)@ == old(out)@ + s@,
{
    let c = chars_of(s);
    crate::text::extend_chars(out, c.as_slice(), 0, c.len());
    assert(c@.subrange(0, c@.len() as int) =~= c@);
}

/// End index of the word starting at `from`.
fn word_end(v: &Vec<char>, from: usize) -> (e: usize)
    requires
        from <= v.len(),
    ensures
        from <= e <= v.len(),
        e - from == word_len(v@.subrange(from as int, v.len() as int)),
{
    let mut e = from;
    while e < v.len() && !crate::text::char_is_space(v[e])
        invariant
            from <= e <= v.len(),
            word_len(v@.subrange(from as int, v.len() as int)) == (e - from) + word_len(v@.subrange(e as int, v.len() as int)),
        decreases v.len() - e,
    {
        proof {
            let t = v@.subrange(e as int, v.len() as int);
            assert(t[0] == v@[e as int]);
            assert(t.drop_first() =~= v@.subrange(e + 1, v.len() as int));
        }
        e = e + 1;
    }
    proof {
        let t = v@.subrange(e as int, v.len() as int);
        if e < v.len() {
            assert(t[0] == v@[e as int]);
        }
    }
    e
}

fn lead_of(out: &mut Vec<char>, prefix: &str, pad: &Vec<char>, first: bool)
    ensures
        final(out)@ == old(out)@ + lead(prefix@, pad@, first),
{
    if first {
        push_str(out, prefix);
    } else {
        crate::text::extend_chars(out, pad.as_slice(), 0, pad.len());
        assert(pad@.subrange(0, pad@.len() as int) =~= pad@);
    }
}

/// Appends `text` wrapped after `prefix` (see [`wrapped`]).
pub fn write_wrapped(out: &mut Vec<char>, prefix: &str, text: &str, indent: usize)
    ensures
        final(out)@ == old(out)@ + wrapped(prefix@, text@, indent as nat),
{
    let mut pad: Vec<char> = Vec::new();
    let mut k: usize = 0;
    while k < indent
        invariant
            k <= indent,
            pad@ == spaces(k as nat),
        decreases indent - k,
    {
        pad.push(' ');
        k = k + 1;
        assert(pad@ =~= spaces(k as nat));
    }
    let v = chars_of(text);
    let ghost o0 = out@;
    let ghost ws: Seq<Seq<char>> = seq![];
    let mut first = true;
    let mut line: Vec<char> = Vec::new();
    let mut line_bytes: u128 = 0;
    let mut i: usize = 0;
    assert(v@.subrange(0, v.len() as int) =~= v@);
    while i < v.len()
        invariant
            i <= v.len(),
            v@ == text@,
            pad@ == spaces(indent as nat),
            words(text@) == ws + words(v@.subrange(i as int, v.len() as int)),
            ({
                let st = wrap_words(prefix@, pad@, ws);
                &&& out@ == o0 + st.out
                &&& first == st.first
                &&& line@ == st.line
            }),
            line_bytes == utf8_len(line@),
            line_bytes <= 4 * line.len(),
        decreases v.len() - i,
    {
        let ghost rest = v@.subrange(i as int, v.len() as int);
        if crate::text::char_is_space(v[i]) {
            proof {
                assert(rest[0] == v@[i as int]);
                assert(rest.drop_first() =~= v@.subrange(i + 1, v.len() as int));
            }
            i = i + 1;
        } else {
            let e = word_end(&v, i);
            let ghost w = v@.subrange(i as int, e as int);
            proof {
                assert(rest[0] == v@[i as int]);
                lemma_word_len_bound(rest);
                assert(rest.subrange(0, word_len(rest) as int) =~= w);
                assert(rest.subrange(word_len(rest) as int, rest.len() as int) =~= v@.subrange(e as int, v.len() as int));
                assert(ws + words(rest) =~= ws.push(w) + words(v@.subrange(e as int, v.len() as int)));
                assert(ws.push(w).drop_last() =~= ws);
            }
            let word_bytes = crate::text::utf8_len_of_range(&v, i, e);
            proof {
                crate::text::lemma_utf8_len_bound(w);
            }
            let extra: u128 = if line.len() == 0 {
                word_bytes
            } else {
                line_bytes + 1 + word_bytes
            };
            if extra > WRAP_WIDTH as u128 && line.len() > 0 {
                lead_of(out, prefix, &pad, first);
                crate::text::extend_chars(out, line.as_slice(), 0, line.len());
                out.push('\n');
                proof {
                    assert(line@.subrange(0, line@.len() as int) =~= line@);
                }
                first = false;
                line = Vec::new();
                crate::text::extend_chars(&mut line, v.as_slice(), i, e);
                line_bytes = word_bytes;
                proof {
                    let st = wrap_words(prefix@, pad@, ws);
                    assert(out@ =~= o0 + (st.out + lead(prefix@, pad@, st.first) + st.line + seq!['\n']));
                }
            } else if line.len() == 0 {
                crate::text::extend_chars(&mut line, v.as_slice(), i, e);
                line_bytes = word_bytes;
            } else {
                let ghost l0 = line@;
                line.push(' ');
                crate::text::extend_chars(&mut line, v.as_slice(), i, e);
                proof {
                    assert(line@ =~= l0 + seq![' '] + w);
                    crate::text::lemma_utf8_len_concat(l0 + seq![' '], w);
                    crate::text::lemma_utf8_len_concat(l0, seq![' ']);
                    assert(utf8_len(seq![' ']) == 1) by {
                        assert(seq![' '].drop_last() =~= Seq::<char>::empty());
                        assert(seq![' '].last() == ' ');
                        assert(utf8_len(Seq::<char>::empty()) == 0);
                        assert((' ' as u32) == 32);
                    }
                }
                line_bytes = line_bytes + 1 + word_bytes;
            }
            proof {
                ws = ws.push(w);
            }
            i = e;
        }
    }
    proof {
        assert(v@.subrange(i as int, v.len() as int) =~= Seq::<char>::empty());
        assert(ws =~= words(text@));
    }
    if line.len() > 0 {
        lead_of(out, prefix, &pad, first);
        crate::text::extend_chars(out, line.as_slice(), 0, line.len());
        out.push('\n');
        proof {
            assert(line@.subrange(0, line@.len() as int) =~= line@);
        }
    }
    proof {
        let st = wrap_words(prefix@, pad@, ws);
        if st.line.len() == 0 {
            assert(out@ =~= o0 + st.out);
        } else {
            assert(out@ =~= o0 + (st.out + lead(prefix@, spaces(indent as nat), st.first) + st.line + seq!['\n']));
        }
    }
}


// ---------------------------------------------------------------------
// The catalogue
// ---------------------------------------------------------------------

/// Width the plugin name is padded to.
pub const NAME_COLUMN: usize = 40;

/// `s` padded with spaces to at least `w` characters.
pub open spec fn pad_right(s: Seq<char>, w: nat) -> Seq<char> {
    if s.len() < w {
        s + spaces((w - s.len()) as nat)
    } else {
        s
    }
}

/// Index of the first `\n` at or after `from`, or the length.
pub open spec fn newline_at_or_after(s: Seq<char>, from: int) -> int
    decreases s.len() - from,
{
    if from < 0 || from >= s.len() {
        s.len() as int
    } else if s[from] == '\n' {
        from
    } else {
        newline_at_or_after(s, from + 1)
    }
}

pub proof fn lemma_newline_bounds(s: Seq<char>, from: int)
    requires
        0 <= from <= s.len(),
    ensures
        from <= newline_at_or_after(s, from) <= s.len(),
        newline_at_or_after(s, from) < s.len() ==> s[newline_at_or_after(s, from)] == '\n',
        forall|k: int| from <= k < newline_at_or_after(s, from) ==> s[k] != '\n',
    decreases s.len() - from,
{
    if from < s.len() && s[from] != '\n' {
        lemma_newline_bounds(s, from + 1);
    }
}

/// A line of `str::lines`: the piece up to `\n`, without a `\r` that
/// ends it when a `\n` follows.
pub open spec fn line_piece(s: Seq<char>, from: int, e: int) -> Seq<char> {
    let piece = s.subrange(from, e);
    if e < s.len() && piece.len() > 0 && piece.last() == '\r' {
        piece.drop_last()
    } else {
        piece
    }
}

/// The example-config block: each line of `s` (as `str::lines` yields
/// them, from `from` on) indented by six spaces; empty lines stay empty.
pub open spec fn config_text(s: Seq<char>, from: int) -> Seq<char>
    decreases s.len() - from,
{
    if from < 0 || from >= s.len() {
        seq![]
    } else {
        proof {
            lemma_newline_bounds(s, from);
        }
        let e = newline_at_or_after(s, from);
        let line = line_piece(s, from, e);
        let out = if line.len() == 0 {
            seq!['\n']
        } else {
            "      "@ + line + seq!['\n']
        };
        out + (if e < s.len() {
            config_text(s, e + 1)
        } else {
            seq![]
        })
    }
}

/// The catalogue block of one plugin.
pub open spec fn plugin_block(p: PluginInfo) -> Seq<char> {
    "  "@ + pad_right(p.name@, NAME_COLUMN as nat) + "  [feature: "@ + p.feature@ + " · "@ + (if p.default_on {
        "default-on"@
    } else {
        "opt-in"@
    }) + "]\n"@ + wrapped("    Description: "@, p.description@, 17) + wrapped("    Startup:     "@, p.startup@, 17)
        + "\n"@ + "    Example config snippet (drop into ~/.config/abtop/config.toml):\n"@ + "\n"@
        + config_text(p.example_config@, 0) + "\n"@ + "    Docs: "@ + p.docs_pointer@ + "\n"@ + "\n"@
}

/// The blocks of `ps`, in order.
pub open spec fn plugin_blocks(ps: Seq<PluginInfo>) -> Seq<char>
    decreases ps.len(),
{
    if ps.len() == 0 {
        seq![]
    } else {
        plugin_blocks(ps.drop_last()) + plugin_block(ps.last())
    }
}

/// The text for an empty catalogue.
pub open spec fn empty_catalogue() -> Seq<char> {
    "No plugins compiled into this binary.\n"@ + "(Plugins are gated behind Cargo features. Rebuild with e.g.\n"@
        + " `cargo install --features plugin-notifier` to enable one.)\n"@
}

/// The whole catalogue.
pub open spec fn catalogue_text(ps: Seq<PluginInfo>) -> Seq<char> {
    if ps.len() == 0 {
        empty_catalogue()
    } else {
        "Available plugins (compiled into this binary):\n"@ + "\n"@ + plugin_blocks(ps)
    }
}

fn push_config(out: &mut Vec<char>, text: &str)
    ensures
        final(out)@ == old(out)@ + config_text(text@, 0),
{
    let v = chars_of(text);
    let ghost o0 = out@;
    let mut from: usize = 0;
    while from < v.len()
        invariant
            from <= v.len(),
            v@ == text@,
            o0 + config_text(v@, 0) == out@ + config_text(v@, from as int),
        decreases v.len() - from,
    {
        let mut e = from;
        while e < v.len() && v[e] != '\n'
            invariant
                from <= e <= v.len(),
                forall|k: int| from <= k < e ==> v@[k] != '\n',
            decreases v.len() - e,
        {
            e = e + 1;
        }
        proof {
            lemma_newline_bounds(v@, from as int);
            let n = newline_at_or_after(v@, from as int);
            if n < e {
                assert(v@[n] != '\n');
            }
            if e < n {
                assert(v@[e as int] == '\n');
            }
            assert(n == e);
        }
        let mut end = e;
        if e < v.len() && e > from && v[e - 1] == '\r' {
            end = e - 1;
        }
        proof {
            let piece = v@.subrange(from as int, e as int);
            if e < v.len() && piece.len() > 0 && piece.last() == '\r' {
                assert(piece.last() == v@[e - 1]);
                assert(piece.drop_last() =~= v@.subrange(from as int, end as int));
            } else {
                if e < v.len() && e > from {
                    assert(piece.last() == v@[e - 1]);
                }
                assert(piece =~= v@.subrange(from as int, end as int));
            }
        }
        let ghost before = out@;
        if end == from {
            out.push('\n');
        } else {
            push_str(out, "      ");
            crate::text::extend_chars(out, v.as_slice(), from, end);
            out.push('\n');
        }
        proof {
            let line = line_piece(v@, from as int, e as int);
            let piece_out = if line.len() == 0 {
                seq!['\n']
            } else {
                "      "@ + line + seq!['\n']
            };
            assert(out@ =~= before + piece_out);
            if e >= v.len() {
                assert(config_text(v@, e + 1) =~= Seq::<char>::empty());
            }
        }
        if e >= v.len() {
            from = v.len();
        } else {
            from = e + 1;
        }
    }
}

#[verifier::spinoff_prover]
#[verifier::rlimit(60)]
fn push_block(out: &mut Vec<char>, p: &PluginInfo)
    ensures
        final(out)@ == old(out)@ + plugin_block(*p),
{
    let ghost o0 = out@;
    push_str(out, "  ");
    push_str(out, p.name);
    let n = chars_of(p.name).len();
    let mut k = n;
    while k < NAME_COLUMN
        invariant
            n <= NAME_COLUMN ==> n <= k <= NAME_COLUMN,
            n > NAME_COLUMN ==> k == n,
            n == p.name@.len(),
            out@ == o0 + "  "@ + p.name@ + spaces((k - n) as nat),
        decreases NAME_COLUMN - k,
    {
        out.push(' ');
        k = k + 1;
        assert(out@ =~= o0 + "  "@ + p.name@ + spaces((k - n) as nat));
    }
    assert(o0 + "  "@ + p.name@ + spaces((k - n) as nat) =~= o0 + "  "@ + pad_right(p.name@, NAME_COLUMN as nat));
    push_str(out, "  [feature: ");
    push_str(out, p.feature);
    push_str(out, " · ");
    if p.default_on {
        push_str(out, "default-on");
    } else {
        push_str(out, "opt-in");
    }
    push_str(out, "]\n");
    write_wrapped(out, "    Description: ", p.description, 17);
    write_wrapped(out, "    Startup:     ", p.startup, 17);
    push_str(out, "\n");
    push_str(out, "    Example config snippet (drop into ~/.config/abtop/config.toml):\n");
    push_str(out, "\n");
    push_config(out, p.example_config);
    push_str(out, "\n");
    push_str(out, "    Docs: ");
    push_str(out, p.docs_pointer);
    push_str(out, "\n");
    push_str(out, "\n");
    assert(out@ =~= o0 + plugin_block(*p));
}

/// Appends the plugin catalogue to `out`: a notice when `plugins` is
/// empty, else a header and one block per plugin (name and feature,
/// wrapped description and startup behaviour, the example config
/// indented, the docs pointer).
pub fn print_catalogue(out: &mut String, plugins: &[PluginInfo])
    ensures
        final(out)@ == old(out)@ + catalogue_text(plugins@),
{
    let mut buf: Vec<char> = Vec::new();
    if plugins.len() == 0 {
        push_str(&mut buf, "No plugins compiled into this binary.\n");
        push_str(&mut buf, "(Plugins are gated behind Cargo features. Rebuild with e.g.\n");
        push_str(&mut buf, " `cargo install --features plugin-notifier` to enable one.)\n");
        assert(buf@ =~= empty_catalogue());
    } else {
        push_str(&mut buf, "Available plugins (compiled into this binary):\n");
        push_str(&mut buf, "\n");
        let ghost head = buf@;
        let mut i: usize = 0;
        assert(plugins@.subrange(0, 0) =~= Seq::<PluginInfo>::empty());
        while i < plugins.len()
            invariant
                i <= plugins.len(),
                buf@ == head + plugin_blocks(plugins@.subrange(0, i as int)),
            decreases plugins.len() - i,
        {
            push_block(&mut buf, &plugins[i]);
            proof {
                let pre = plugins@.subrange(0, i + 1);
                assert(pre.drop_last() =~= plugins@.subrange(0, i as int));
                assert(pre.last() == plugins@[i as int]);
            }
            i = i + 1;
        }
        assert(plugins@.subrange(0, plugins.len() as int) =~= plugins@);
        assert(buf@ =~= "Available plugins (compiled into this binary):\n"@ + "\n"@ + plugin_blocks(plugins@));
    }
    let text = string_of(buf.as_slice());
    out.append(text.as_str());
}

/// Greedy filling never overflows: the line being filled takes at most
/// [`WRAP_WIDTH`] bytes, unless it holds a single word longer than that
/// (the last one taken).
pub proof fn law_wrap_line_fits(prefix: Seq<char>, pad: Seq<char>, ws: Seq<Seq<char>>)
    ensures
        ({
            let st = wrap_words(prefix, pad, ws);
            st.line.len() > 0 ==> (utf8_len(st.line) <= WRAP_WIDTH || st.line == ws.last())
        }),
    decreases ws.len(),
{
    if ws.len() > 0 {
        law_wrap_line_fits(prefix, pad, ws.drop_last());
        let st = wrap_words(prefix, pad, ws.drop_last());
        let w = ws.last();
        if st.line.len() > 0 {
            crate::text::lemma_utf8_len_concat(st.line, seq![' ']);
            crate::text::lemma_utf8_len_concat(st.line + seq![' '], w);
            assert(seq![' '].drop_last() =~= Seq::<char>::empty());
            assert(utf8_len(seq![' ']) == 1) by {
                reveal_with_fuel(utf8_len, 2);
            }
        }
    }
}

/// Words joined by single spaces.
pub open spec fn join_words(l: Seq<Seq<char>>) -> Seq<char>
    decreases l.len(),
{
    if l.len() == 0 {
        seq![]
    } else if l.len() == 1 {
        l[0]
    } else {
        join_words(l.drop_last()) + seq![' '] + l.last()
    }
}

/// The words `ws` grouped into lines greedily: a word joins the current
/// line unless the line with it would pass [`WRAP_WIDTH`] bytes.
pub open spec fn wrap_groups(ws: Seq<Seq<char>>) -> Seq<Seq<Seq<char>>>
    decreases ws.len(),
{
    if ws.len() == 0 {
        seq![]
    } else {
        let g = wrap_groups(ws.drop_last());
        let w = ws.last();
        if g.len() == 0 {
            seq![seq![w]]
        } else if utf8_len(join_words(g.last())) + 1 + utf8_len(w) > WRAP_WIDTH {
            g.push(seq![w])
        } else {
            g.update(g.len() - 1, g.last().push(w))
        }
    }
}

/// The lines `g`, the first after `prefix`, the others after `pad`.
pub open spec fn render_lines(prefix: Seq<char>, pad: Seq<char>, g: Seq<Seq<Seq<char>>>) -> Seq<char>
    decreases g.len(),
{
    if g.len() == 0 {
        seq![]
    } else {
        render_lines(prefix, pad, g.drop_last()) + lead(prefix, pad, g.len() == 1) + join_words(g.last()) + seq!['\n']
    }
}

/// All the words of the lines `g`, in order.
pub open spec fn flatten_lines(g: Seq<Seq<Seq<char>>>) -> Seq<Seq<char>>
    decreases g.len(),
{
    if g.len() == 0 {
        seq![]
    } else {
        flatten_lines(g.drop_last()) + g.last()
    }
}

proof fn lemma_words_nonempty(s: Seq<char>)
    ensures
        forall|i: int| 0 <= i < words(s).len() ==> (#[trigger] words(s)[i]).len() > 0,
    decreases s.len(),
{
    if s.len() > 0 {
        if is_space(s[0]) {
            lemma_words_nonempty(s.drop_first());
            assert(words(s) == words(s.drop_first()));
        } else {
            lemma_word_len_bound(s);
            let rest = s.subrange(word_len(s) as int, s.len() as int);
            lemma_words_nonempty(rest);
            let ws = words(s);
            assert(ws == seq![s.subrange(0, word_len(s) as int)] + words(rest));
            assert forall|i: int| 0 <= i < ws.len() implies (#[trigger] ws[i]).len() > 0 by {
                if i == 0 {
                    assert(ws[0] == s.subrange(0, word_len(s) as int));
                } else {
                    assert(ws[i] == words(rest)[i - 1]);
                }
            }
        }
    }
}

proof fn lemma_join_push(l: Seq<Seq<char>>, w: Seq<char>)
    requires
        l.len() > 0,
    ensures
        join_words(l.push(w)) == join_words(l) + seq![' '] + w,
{
    assert(l.push(w).drop_last() =~= l);
}

proof fn lemma_join_nonempty(l: Seq<Seq<char>>)
    requires
        l.len() > 0,
        l[0].len() > 0,
    ensures
        join_words(l).len() > 0,
    decreases l.len(),
{
    if l.len() > 1 {
        lemma_join_nonempty(l.drop_last());
    }
}

proof fn lemma_space_width()
    ensures
        utf8_len(seq![' ']) == 1,
{
    reveal_with_fuel(utf8_len, 2);
    assert(seq![' '].drop_last() =~= Seq::<char>::empty());
}

/// What greedy grouping guarantees: every line is non-empty and holds at
/// most [`WRAP_WIDTH`] bytes unless it is one word, and no line could have
/// taken the first word of the next.
pub open spec fn greedy_lines(g: Seq<Seq<Seq<char>>>) -> bool {
    &&& forall|i: int| 0 <= i < g.len() ==> (#[trigger] g[i]).len() > 0 && g[i][0].len() > 0
    &&& forall|i: int| 0 <= i < g.len() ==> utf8_len(join_words(#[trigger] g[i])) <= WRAP_WIDTH || g[i].len() == 1
    &&& forall|i: int| 0 <= i < g.len() - 1 ==> utf8_len(join_words(#[trigger] g[i])) + 1 + utf8_len(g[i + 1][0]) > WRAP_WIDTH
}

proof fn lemma_groups(prefix: Seq<char>, pad: Seq<char>, ws: Seq<Seq<char>>)
    requires
        forall|i: int| 0 <= i < ws.len() ==> (#[trigger] ws[i]).len() > 0,
    ensures
        ({
            let st = wrap_words(prefix, pad, ws);
            let g = wrap_groups(ws);
            &&& g.len() == 0 <==> ws.len() == 0
            &&& ws.len() == 0 ==> st.line.len() == 0 && st.out.len() == 0
            &&& ws.len() > 0 ==> st.line == join_words(g.last()) && st.line.len() > 0 && st.first == (g.len() == 1)
                && st.out == render_lines(prefix, pad, g.drop_last())
            &&& flatten_lines(g) == ws
            &&& greedy_lines(g)
        }),
    decreases ws.len(),
{
    if ws.len() > 0 {
        let ws0 = ws.drop_last();
        assert forall|i: int| 0 <= i < ws0.len() implies (#[trigger] ws0[i]).len() > 0 by {
            assert(ws0[i] == ws[i]);
        }
        lemma_groups(prefix, pad, ws0);
        let st = wrap_words(prefix, pad, ws0);
        let g = wrap_groups(ws0);
        let w = ws.last();
        assert(w.len() > 0);
        let g2 = wrap_groups(ws);
        lemma_space_width();
        if g.len() == 0 {
            assert(ws0.len() == 0);
            assert(g2 == seq![seq![w]]);
            assert(g2.drop_last() =~= Seq::<Seq<Seq<char>>>::empty());
            assert(flatten_lines(g2.drop_last()) =~= Seq::<Seq<char>>::empty());
            assert(flatten_lines(g2) =~= ws);
        } else {
            lemma_join_nonempty(g.last());
            if utf8_len(join_words(g.last())) + 1 + utf8_len(w) > WRAP_WIDTH {
                assert(g2 == g.push(seq![w]));
                assert(g2.drop_last() =~= g);
                assert(render_lines(prefix, pad, g) == render_lines(prefix, pad, g.drop_last()) + lead(prefix, pad, g.len() == 1)
                    + join_words(g.last()) + seq!['\n']);
                assert(flatten_lines(g2) =~= flatten_lines(g) + seq![w]);
                assert(ws =~= ws0 + seq![w]);
                assert forall|i: int| 0 <= i < g2.len() - 1 implies utf8_len(join_words(#[trigger] g2[i])) + 1 + utf8_len(g2[i + 1][0]) > WRAP_WIDTH by {
                    if i < g.len() - 1 {
                        assert(g2[i] == g[i] && g2[i + 1] == g[i + 1]);
                    } else {
                        assert(g2[i] == g.last());
                    }
                }
                assert forall|i: int| 0 <= i < g2.len() implies (#[trigger] g2[i]).len() > 0 && g2[i][0].len() > 0 by {
                    if i < g.len() {
                        assert(g2[i] == g[i]);
                    }
                }
                assert forall|i: int| 0 <= i < g2.len() implies utf8_len(join_words(#[trigger] g2[i])) <= WRAP_WIDTH || g2[i].len() == 1 by {
                    if i < g.len() {
                        assert(g2[i] == g[i]);
                    }
                }
            } else {
                let last = g.last().push(w);
                assert(g2 == g.update(g.len() - 1, last));
                lemma_join_push(g.last(), w);
                crate::text::lemma_utf8_len_concat(join_words(g.last()), seq![' ']);
                crate::text::lemma_utf8_len_concat(join_words(g.last()) + seq![' '], w);
                assert(g2.drop_last() =~= g.drop_last());
                assert(g2.last() == last);
                assert(flatten_lines(g) == flatten_lines(g.drop_last()) + g.last());
                assert(flatten_lines(g2) == flatten_lines(g2.drop_last()) + last);
                assert(flatten_lines(g2) =~= flatten_lines(g) + seq![w]);
                assert(ws =~= ws0 + seq![w]);
                assert(flatten_lines(g2) =~= ws);
                assert forall|i: int| 0 <= i < g2.len() - 1 implies utf8_len(join_words(#[trigger] g2[i])) + 1 + utf8_len(g2[i + 1][0]) > WRAP_WIDTH by {
                    assert(g2[i] == g[i]);
                    if i + 1 == g.len() - 1 {
                        assert(g2[i + 1][0] == g[i + 1][0]);
                    } else {
                        assert(g2[i + 1] == g[i + 1]);
                    }
                }
                assert forall|i: int| 0 <= i < g2.len() implies (#[trigger] g2[i]).len() > 0 && g2[i][0].len() > 0 by {
                    if i < g.len() - 1 {
                        assert(g2[i] == g[i]);
                    } else {
                        assert(g2[i][0] == g[i][0]);
                    }
                }
                assert forall|i: int| 0 <= i < g2.len() implies utf8_len(join_words(#[trigger] g2[i])) <= WRAP_WIDTH || g2[i].len() == 1 by {
                    if i < g.len() - 1 {
                        assert(g2[i] == g[i]);
                    }
                }
            }
        }
    }
}

/// Greedy word wrapping: the wrapped text is the greedy lines, the first
/// after the prefix and the others after the indent, each ending in a
/// newline; the lines hold exactly the words of `text`, in order; a line
/// passes [`WRAP_WIDTH`] bytes only when it is one word; and no line could
/// have taken the first word of the next. Text without words gives
/// nothing.
pub proof fn law_wrap_greedy(prefix: Seq<char>, text: Seq<char>, indent: nat)
    ensures
        wrapped(prefix, text, indent) == render_lines(prefix, spaces(indent), wrap_groups(words(text))),
        flatten_lines(wrap_groups(words(text))) == words(text),
        greedy_lines(wrap_groups(words(text))),
        wrap_groups(words(text)).len() == 0 <==> words(text).len() == 0,
{
    lemma_words_nonempty(text);
    lemma_groups(prefix, spaces(indent), words(text));
}

} // verus!
