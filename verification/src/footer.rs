//! Text and layout of the footer: the filter bar, the session count, the
//! peak-hours notice, and the events line (the publisher's state, its
//! connection count and the socket path, middle-truncated to fit).
//! Drawing is left to the caller.
use vstd::prelude::*;
use crate::text::{chars_of, extend_chars, push_decimal, string_of};

verus! {

/// `s` cut to at most `max` characters: unchanged when it fits, empty for
/// no room, `…` alone for one character, and otherwise a head and a
/// tail joined by `…`, the tail getting two thirds of the room (at least
/// one character).
pub open spec fn truncate_middle_spec(s: Seq<char>, max: nat) -> Seq<char> {
    if max == 0 {
        seq![]
    } else if s.len() <= max {
        s
    } else if max == 1 {
        seq!['…']
    } else {
        let keep = (max - 1) as nat;
        let tail_share: nat = if (keep * 2) / 3 >= 1 {
            (keep * 2) / 3
        } else {
            1
        };
        let head_share = (keep - tail_share) as nat;
        s.subrange(0, head_share as int) + seq!['…'] + s.subrange(s.len() - tail_share, s.len() as int)
    }
}

/// Middle-truncates `s` to at most `max` characters (see
/// [`truncate_middle_spec`]).
pub fn truncate_middle(s: &str, max: usize) -> (r: String)
    ensures
        r@ == truncate_middle_spec(s@, max as nat),
        r@.len() <= max,
        s@.len() > max && max > 0 ==> r@.len() == max,
{
    let v = chars_of(s);
    let n = v.len();
    if max == 0 {
        return String::new();
    }
    if n <= max {
        return String::from_str(s);
    }
    if max == 1 {
        proof {
            reveal_strlit("…");
        }
        assert("…"@ =~= seq!['…']);
        return String::from_str("…");
    }
    let keep = max - 1;
    // Two thirds of `keep`, rounded down, computed without overflow.
    let third = keep - keep / 3 - (if keep % 3 != 0 {
        1
    } else {
        0
    });
    assert(third == (keep as nat * 2) / 3) by (nonlinear_arith)
        requires
            keep >= 1,
            third == keep - keep / 3 - (if keep % 3 != 0 {
                1int
            } else {
                0int
            }),
    ;
    let tail_share = if third >= 1 {
        third
    } else {
        1
    };
    let head_share = keep - tail_share;
    let mut out: Vec<char> = Vec::new();
    extend_chars(&mut out, v.as_slice(), 0, head_share);
    out.push('…');
    extend_chars(&mut out, v.as_slice(), n - tail_share, n);
    proof {
        assert(out@ =~= v@.subrange(0, head_share as int) + seq!['…'] + v@.subrange(n - tail_share, n as int));
    }
    string_of(out.as_slice())
}

fn push_str(out: &mut Vec<char>, s: &str)
    ensures
        final(out)@ == old(out)@ + s@,
{
    let c = chars_of(s);
    extend_chars(out, c.as_slice(), 0, c.len());
    assert(c@.subrange(0, c@.len() as int) =~= c@);
}

/// The line's fixed start: ` events: <state> • <conns> conns • `.
pub open spec fn events_prefix(paused: bool, conns: nat) -> Seq<char> {
    " events: "@ + (if paused {
        "paused"@
    } else {
        "on"@
    }) + " • "@ + crate::text::decimal(conns) + " conns • "@
}

/// The line's fixed end: five spaces and the `[e]` hint.
pub open spec fn events_suffix() -> Seq<char> {
    "     [e]"@
}

/// Room left for the path once the prefix and suffix are placed.
pub open spec fn path_budget(paused: bool, conns: nat, max_width: nat) -> nat {
    let a = max_width - events_prefix(paused, conns).len();
    let b = a - events_suffix().len();
    if b > 0 {
        b as nat
    } else {
        0
    }
}

/// Prefix and path text of the footer's events line for a publisher that
/// is enabled: the path is middle-truncated to the room the fixed parts
/// leave in `max_width` characters (empty when there is none).
pub fn events_line_text(paused: bool, conns: usize, path: &str, max_width: usize) -> (r: (String, String))
    ensures
        r.0@ == events_prefix(paused, conns as nat),
        r.1@ == truncate_middle_spec(path@, path_budget(paused, conns as nat, max_width as nat)),
{
    let mut p: Vec<char> = Vec::new();
    push_str(&mut p, " events: ");
    if paused {
        push_str(&mut p, "paused");
    } else {
        push_str(&mut p, "on");
    }
    push_str(&mut p, " • ");
    push_decimal(&mut p, conns as u128);
    push_str(&mut p, " conns • ");
    assert(p@ =~= events_prefix(paused, conns as nat));
    let suffix = chars_of("     [e]");
    let after_prefix = if max_width > p.len() {
        max_width - p.len()
    } else {
        0
    };
    let budget = if after_prefix > suffix.len() {
        after_prefix - suffix.len()
    } else {
        0
    };
    let path_str = if budget == 0 {
        String::new()
    } else {
        truncate_middle(path, budget)
    };
    (string_of(p.as_slice()), path_str)
}


/// Widths at or below which the footer drops hints.
pub const COMPACT_WIDTH: u16 = 80;

pub const ULTRA_COMPACT_WIDTH: u16 = 70;

/// Which hints fit in a footer `width` columns wide: `(compact,
/// ultra_compact)`.
pub fn footer_mode(width: u16) -> (r: (bool, bool))
    ensures
        r == (width <= COMPACT_WIDTH, width <= ULTRA_COMPACT_WIDTH),
{
    (width <= COMPACT_WIDTH, width <= ULTRA_COMPACT_WIDTH)
}

/// One key hint of the footer: a key and what it does.
#[derive(Clone, Copy, Debug, PartialEq, Eq)]
pub enum Hint {
    Select,
    Jump,
    Tabs,
    Kill,
    Filter,
    View,
    Config,
    Help,
    Quit,
}

/// The key hints in footer order: jumping only inside tmux and with room,
/// tab switching only when compact, and kill, view, config and help
/// dropped as the footer narrows.
pub open spec fn hints_spec(has_tmux: bool, compact: bool, ultra_compact: bool) -> Seq<Hint> {
    seq![Hint::Select] + (if has_tmux && !ultra_compact {
        seq![Hint::Jump]
    } else {
        seq![]
    }) + (if compact {
        seq![Hint::Tabs]
    } else {
        seq![]
    }) + (if !ultra_compact {
        seq![Hint::Kill]
    } else {
        seq![]
    }) + seq![Hint::Filter] + (if !ultra_compact {
        seq![Hint::View] + (if !compact {
            seq![Hint::Config]
        } else {
            seq![]
        }) + seq![Hint::Help]
    } else {
        seq![]
    }) + seq![Hint::Quit]
}

/// The key hints to show, in order (see [`hints_spec`]).
pub fn key_hints(has_tmux: bool, compact: bool, ultra_compact: bool) -> (r: Vec<Hint>)
    ensures
        r@ == hints_spec(has_tmux, compact, ultra_compact),
{
    let mut v: Vec<Hint> = vec![Hint::Select];
    if has_tmux && !ultra_compact {
        v.push(Hint::Jump);
    }
    if compact {
        v.push(Hint::Tabs);
    }
    if !ultra_compact {
        v.push(Hint::Kill);
    }
    v.push(Hint::Filter);
    if !ultra_compact {
        v.push(Hint::View);
        if !compact {
            v.push(Hint::Config);
        }
        v.push(Hint::Help);
    }
    v.push(Hint::Quit);
    assert(v@ =~= hints_spec(has_tmux, compact, ultra_compact));
    v
}

/// What the status cell of the footer shows.
#[derive(Clone, Copy, Debug, PartialEq, Eq)]
pub enum StatusSlot {
    /// Nothing: the footer is compact.
    Hidden,
    /// The active filter text.
    Filter,
    /// A status message younger than three seconds.
    Fresh,
    /// The auto-refresh label.
    Auto,
}

/// The status cell: hidden when compact, else the active filter, else a
/// fresh status message, else the auto-refresh label.
pub open spec fn status_slot_spec(compact: bool, filter_empty: bool, has_fresh: bool) -> StatusSlot {
    if compact {
        StatusSlot::Hidden
    } else if !filter_empty {
        StatusSlot::Filter
    } else if has_fresh {
        StatusSlot::Fresh
    } else {
        StatusSlot::Auto
    }
}

/// Which status cell the footer shows (see [`status_slot_spec`]).
pub fn status_slot(compact: bool, filter_empty: bool, has_fresh: bool) -> (r: StatusSlot)
    ensures
        r == status_slot_spec(compact, filter_empty, has_fresh),
{
    if compact {
        StatusSlot::Hidden
    } else if !filter_empty {
        StatusSlot::Filter
    } else if has_fresh {
        StatusSlot::Fresh
    } else {
        StatusSlot::Auto
    }
}

/// `"{visible}/{total} {label}"`.
pub open spec fn fraction_text(visible: nat, total: nat, label: Seq<char>) -> Seq<char> {
    crate::text::decimal(visible) + seq!['/'] + crate::text::decimal(total) + seq![' '] + label
}

/// The session count: `visible/total label` while a filter hides some,
/// else `total label`.
pub open spec fn count_label_spec(visible: nat, total: nat, label: Seq<char>) -> Seq<char> {
    if visible < total {
        fraction_text(visible, total, label)
    } else {
        crate::text::decimal(total) + seq![' '] + label
    }
}

/// The session count text of the footer.
pub fn count_label(visible: usize, total: usize, label: &str) -> (r: String)
    ensures
        r@ == count_label_spec(visible as nat, total as nat, label@),
{
    let mut out: Vec<char> = Vec::new();
    if visible < total {
        push_decimal(&mut out, visible as u128);
        out.push('/');
    }
    push_decimal(&mut out, total as u128);
    out.push(' ');
    push_str(&mut out, label);
    proof {
        if visible < total {
            assert(out@ =~= fraction_text(visible as nat, total as nat, label@));
        } else {
            assert(out@ =~= crate::text::decimal(total as nat) + seq![' '] + label@);
        }
    }
    string_of(out.as_slice())
}

/// First index of `c` in `s` at or after `from`, or the length.
pub open spec fn index_or_len(s: Seq<char>, c: char, from: int) -> int
    decreases s.len() - from,
{
    if from < 0 || from >= s.len() {
        s.len() as int
    } else if s[from] == c {
        from
    } else {
        index_or_len(s, c, from + 1)
    }
}

pub proof fn lemma_index_or_len(s: Seq<char>, c: char, from: int)
    requires
        0 <= from <= s.len(),
    ensures
        from <= index_or_len(s, c, from) <= s.len(),
        index_or_len(s, c, from) < s.len() ==> s[index_or_len(s, c, from)] == c,
        forall|k: int| from <= k < index_or_len(s, c, from) ==> s[k] != c,
    decreases s.len() - from,
{
    if from < s.len() && s[from] != c {
        lemma_index_or_len(s, c, from + 1);
    }
}

/// The Esc and Enter hints of the filter bar from the localized
/// `"<esc>,<enter>"` text: the part before the first comma, and the
/// trimmed second part (`keep` when there is no comma).
pub open spec fn esc_enter_hints(t: Seq<char>) -> (Seq<char>, Seq<char>) {
    let c1 = index_or_len(t, ',', 0);
    let first = t.subrange(0, c1);
    if c1 >= t.len() {
        (first, "keep"@)
    } else {
        let c2 = index_or_len(t, ',', c1 + 1);
        (first, crate::text::trim(t.subrange(c1 + 1, c2)))
    }
}

/// The right-hand part of the filter bar.
pub open spec fn filter_suffix_spec(width: u16, count: Seq<char>, esc_clear: Seq<char>) -> Seq<char> {
    if width <= COMPACT_WIDTH {
        "_  "@ + count
    } else {
        let (esc, enter) = esc_enter_hints(esc_clear);
        "_  "@ + count + "  (Esc "@ + esc + ", Enter "@ + enter + ")"@
    }
}

fn scan_to(v: &Vec<char>, c: char, from: usize) -> (r: usize)
    requires
        from <= v.len(),
    ensures
        r == index_or_len(v@, c, from as int),
{
    let mut i = from;
    while i < v.len() && v[i] != c
        invariant
            from <= i <= v.len(),
            index_or_len(v@, c, from as int) == index_or_len(v@, c, i as int),
        decreases v.len() - i,
    {
        i = i + 1;
    }
    i
}

/// The right-hand part of the filter bar: the count, and in a wide
/// footer the Esc / Enter hints taken from the localized text.
pub fn filter_suffix(width: u16, count: &str, esc_clear: &str) -> (r: String)
    ensures
        r@ == filter_suffix_spec(width, count@, esc_clear@),
{
    let mut out: Vec<char> = Vec::new();
    push_str(&mut out, "_  ");
    push_str(&mut out, count);
    if width <= COMPACT_WIDTH {
        return string_of(out.as_slice());
    }
    let t = chars_of(esc_clear);
    let c1 = scan_to(&t, ',', 0);
    proof {
        lemma_index_or_len(t@, ',', 0);
    }
    let ghost o0 = out@;
    push_str(&mut out, "  (Esc ");
    extend_chars(&mut out, t.as_slice(), 0, c1);
    push_str(&mut out, ", Enter ");
    if c1 >= t.len() {
        push_str(&mut out, "keep");
    } else {
        let c2 = scan_to(&t, ',', c1 + 1);
        proof {
            lemma_index_or_len(t@, ',', c1 + 1);
        }
        let (a, b) = crate::text::trim_in(&t, c1 + 1, c2);
        extend_chars(&mut out, t.as_slice(), a, b);
    }
    push_str(&mut out, ")");
    proof {
        let (esc, enter) = esc_enter_hints(esc_clear@);
        assert(out@ =~= "_  "@ + count@ + "  (Esc "@ + esc + ", Enter "@ + enter + ")"@);
    }
    string_of(out.as_slice())
}

/// Room left for the filter text: the width less two columns and the
/// suffix's characters, not below zero.
pub fn filter_width(width: u16, suffix: &str) -> (r: usize)
    ensures
        r == (if width as int - 2 - suffix@.len() > 0 {
            width as int - 2 - suffix@.len()
        } else {
            0
        }),
{
    let n = chars_of(suffix).len();
    let w = width as usize;
    if n < w && 2 < w - n {
        w - n - 2
    } else {
        0
    }
}

/// Minutes left of the US business-hours peak (12:00–18:00 UTC) at
/// `hour:minute` UTC, as hours and minutes; none outside it.
pub open spec fn peak_left_spec(hour: u32, minute: u32) -> Option<(u32, u32)> {
    if 12 <= hour < 18 {
        let mins = (18 - hour) * 60 - minute;
        Some(((mins / 60) as u32, (mins % 60) as u32))
    } else {
        None
    }
}

/// Time left of the peak window at `hour:minute` UTC.
pub fn peak_time_left(hour: u32, minute: u32) -> (r: Option<(u32, u32)>)
    requires
        minute < 60,
    ensures
        r == peak_left_spec(hour, minute),
{
    if 12 <= hour && hour < 18 {
        let mins = (18 - hour) * 60 - minute;
        Some((mins / 60, mins % 60))
    } else {
        None
    }
}

/// Two-digit zero-padded decimal of a value below 100.
pub open spec fn two_digits(m: nat) -> Seq<char> {
    if m < 10 {
        seq!['0'] + crate::text::decimal(m)
    } else {
        crate::text::decimal(m)
    }
}

/// `⚡<label> (<resets_in> <h>h<mm>m)`.
pub open spec fn peak_text_spec(label: Seq<char>, resets_in: Seq<char>, h: nat, m: nat) -> Seq<char> {
    seq!['⚡'] + label + " ("@ + resets_in + seq![' '] + crate::text::decimal(h) + seq!['h'] + two_digits(m) + "m)"@
}

/// The peak-hours notice.
pub fn peak_text(label: &str, resets_in: &str, h: u32, m: u32) -> (r: String)
    requires
        m < 100,
    ensures
        r@ == peak_text_spec(label@, resets_in@, h as nat, m as nat),
{
    let mut out: Vec<char> = Vec::new();
    out.push('⚡');
    push_str(&mut out, label);
    push_str(&mut out, " (");
    push_str(&mut out, resets_in);
    out.push(' ');
    push_decimal(&mut out, h as u128);
    out.push('h');
    let ghost before = out@;
    if m < 10 {
        out.push('0');
    }
    push_decimal(&mut out, m as u128);
    push_str(&mut out, "m)");
    proof {
        assert(out@ =~= peak_text_spec(label@, resets_in@, h as nat, m as nat));
    }
    string_of(out.as_slice())
}

/// `text` right-aligned in `width` characters (unchanged when longer).
pub open spec fn right_aligned_spec(text: Seq<char>, width: nat) -> Seq<char> {
    if text.len() < width {
        crate::plugins::spaces((width - text.len()) as nat) + text
    } else {
        text
    }
}

/// The count label right-aligned in what is left of the line after
/// `used` characters; none when it does not fit.
pub fn count_cell(used: usize, label: &str, width: u16) -> (r: Option<String>)
    ensures
        match r {
            Some(t) => used + label@.len() < width && t@ == right_aligned_spec(label@, (width - (used + label@.len())) as nat),
            None => used + label@.len() >= width,
        },
{
    let v = chars_of(label);
    let n = v.len();
    let w = width as usize;
    if used < w && n < w - used {
        let remaining = w - (used + n);
        let mut out: Vec<char> = Vec::new();
        let mut k: usize = n;
        while k < remaining
            invariant
                n <= k,
                n < remaining ==> k <= remaining,
                remaining <= n ==> k == n,
                out@ == crate::plugins::spaces((k - n) as nat),
            decreases remaining - k,
        {
            out.push(' ');
            k = k + 1;
            assert(out@ =~= crate::plugins::spaces((k - n) as nat));
        }
        extend_chars(&mut out, v.as_slice(), 0, n);
        proof {
            assert(v@.subrange(0, n as int) =~= label@);
            if n < remaining {
                assert(k == remaining);
                assert(out@ =~= right_aligned_spec(label@, remaining as nat));
            } else {
                assert(k == n);
                assert(out@ =~= right_aligned_spec(label@, remaining as nat));
            }
        }
        Some(string_of(out.as_slice()))
    } else {
        None
    }
}
/// Middle truncation: the result never exceeds `max` characters; a text
/// that fits is kept whole; a longer one becomes exactly `max` characters
/// made of a head of the text, `…`, and a tail of the text, the tail
/// getting at least as many characters as the head and at least one.
pub proof fn law_truncate_middle(s: Seq<char>, max: nat)
    ensures
        truncate_middle_spec(s, max).len() <= max,
        s.len() <= max ==> truncate_middle_spec(s, max) == s,
        s.len() > max ==> truncate_middle_spec(s, max).len() == max,
        s.len() > max && max >= 2 ==> exists|h: int| #![trigger s.subrange(0, h)]
            0 <= h && h <= max - 1 - h && 1 <= max - 1 - h && truncate_middle_spec(s, max) == s.subrange(0, h) + seq!['…']
                + s.subrange(s.len() - (max - 1 - h), s.len() as int),
{
    if s.len() > max && max >= 2 {
        let keep = (max - 1) as nat;
        let tail_share: nat = if (keep * 2) / 3 >= 1 { (keep * 2) / 3 } else { 1 };
        let h = (keep - tail_share) as int;
        assert(tail_share <= keep);
        assert(h <= tail_share);
        assert(truncate_middle_spec(s, max) == s.subrange(0, h) + seq!['…'] + s.subrange(s.len() - (max - 1 - h), s.len() as int));
    }
}
} // verus!
