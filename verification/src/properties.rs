//! Properties that tie the library's functions together, stated over the same spec
//! functions as their contracts and proved from them.

use vstd::prelude::*;
use crate::animator::{
    animation_of, cell_segments, column_animation_ok, column_frame, fitted_columns, frame_shows, frames_view,
    layout_of, lemma_prefix_sum_mono, locked_mask, newlines, prefix_sum, prepared_columns, ready_matches,
    ready_rows_match, render_chars, render_cols, render_lines, render_segs, room_for, scramble_matches,
    scramble_units, shows_real, spaces, text_frames_ok, trimmed_columns, AnimConfig, ColumnAnimation, ColumnLayout,
    ReadySegment, ScrambleChar,
};
use crate::animator::{aligned_columns, centered_columns, palette_index, used_before};
use crate::charset::{resolve_given, resolve_spec, unicode_alphanumeric, ResolvedCharSet};
use crate::cli::{AnsiColor, CharSet};
use crate::text::{all_white_space, is_white_space};
use crate::cli::VAlign;
use crate::ansi::{column_seq, hide_seq, show_seq, up_seq};
use crate::integrations::{side_animation_ok, side_columns};
use crate::layout::{
    apply_sgr_from, field_value, line_state, line_state_from, sgr_param_nums,
    cell_padding, cell_text, content_end, context_from, csi_at, csi_end, fg_prefix, initial_state, keep_sgr_from,
    layout_height, lemma_csi_end_bounds, lemma_max_width_bounds, lemma_split_nonempty, marked_segments,
    max_width_of, parse_markers_spec, propagate_from, segments_view, sgr_at, sgr_codes_from, sgr_seq,
    split_at_markers, state_prefix, strip_ansi_spec, strip_from, truncate_from, visual_width_spec, Fg,
    GraphicsState, Segment,
};
use crate::text::{
    all_digits, decimal, digit_char, digits_value, is_ascii_alpha, parse_usize_spec, unsigned_digits,
};

verus! {

// ── Text and control sequences ──────────────────────────────────────────────

proof fn lemma_context_chars_from(s: Seq<char>, i: int, pending: Seq<char>)
    requires
        0 <= i,
    ensures
        context_from(s, i, pending).map_values(|p: (char, Seq<char>)| p.0) == strip_from(s, i),
    decreases s.len() - i,
{
    if i < s.len() {
        if csi_at(s, i) {
            lemma_csi_end_bounds(s, i + 2);
            let e = csi_end(s, i + 2);
            lemma_context_chars_from(s, e, pending + s.subrange(i, e));
        } else {
            lemma_context_chars_from(s, i + 1, seq![]);
            let rest = context_from(s, i + 1, seq![]);
            assert((seq![(s[i], pending)] + rest).map_values(|p: (char, Seq<char>)| p.0) == seq![s[i]]
                + rest.map_values(|p: (char, Seq<char>)| p.0));
        }
    }
}

/// The characters that `chars_with_ansi_context` pairs with their codes are exactly the
/// visible characters of the string, those that `strip_ansi` keeps, in order.
pub proof fn lemma_context_chars_are_visible(s: Seq<char>)
    ensures
        context_from(s, 0, seq![]).map_values(|p: (char, Seq<char>)| p.0) == strip_ansi_spec(s),
{
    lemma_context_chars_from(s, 0, seq![]);
}

proof fn lemma_csi_end_shift(a: Seq<char>, b: Seq<char>, j: int)
    requires
        0 <= j <= b.len(),
    ensures
        csi_end(a + b, a.len() + j) == a.len() + csi_end(b, j),
    decreases b.len() - j,
{
    if j < b.len() {
        assert((a + b)[a.len() + j] == b[j]);
        if !is_ascii_alpha(b[j]) {
            lemma_csi_end_shift(a, b, j + 1);
        }
    }
}

/// Past the end of `a`, `a + b` strips as `b` does.
proof fn lemma_strip_shift(a: Seq<char>, b: Seq<char>, j: int)
    requires
        0 <= j <= b.len(),
    ensures
        strip_from(a + b, a.len() + j) == strip_from(b, j),
    decreases b.len() - j,
{
    if j < b.len() {
        let ab = a + b;
        assert(ab[a.len() + j] == b[j]);
        if j + 1 < b.len() {
            assert(ab[a.len() + j + 1] == b[j + 1]);
        }
        assert(csi_at(ab, a.len() + j) == csi_at(b, j));
        if csi_at(b, j) {
            lemma_csi_end_bounds(b, j + 2);
            lemma_csi_end_shift(a, b, j + 2);
            lemma_strip_shift(a, b, csi_end(b, j + 2));
        } else {
            lemma_strip_shift(a, b, j + 1);
        }
    }
}

/// A control sequence whose body starts at `j` ends just past the first letter at `m`.
proof fn lemma_csi_end_at(x: Seq<char>, j: int, m: int)
    requires
        0 <= j <= m < x.len(),
        is_ascii_alpha(x[m]),
        forall|k: int| j <= k < m ==> !is_ascii_alpha(#[trigger] x[k]),
    ensures
        csi_end(x, j) == m + 1,
    decreases m - j,
{
    if j < m {
        lemma_csi_end_at(x, j + 1, m);
    }
}

/// A control sequence with no letter after `j` runs to the end.
proof fn lemma_csi_end_open(x: Seq<char>, j: int)
    requires
        0 <= j <= x.len(),
        forall|k: int| j <= k < x.len() ==> !is_ascii_alpha(#[trigger] x[k]),
    ensures
        csi_end(x, j) == x.len(),
    decreases x.len() - j,
{
    if j < x.len() {
        lemma_csi_end_open(x, j + 1);
    }
}

/// Before its end, a control sequence holds no letter.
proof fn lemma_csi_body(x: Seq<char>, j: int)
    requires
        0 <= j <= x.len(),
    ensures
        forall|k: int| j <= k < csi_end(x, j) - 1 ==> !is_ascii_alpha(#[trigger] x[k]),
    decreases x.len() - j,
{
    if j < x.len() && !is_ascii_alpha(x[j]) {
        lemma_csi_body(x, j + 1);
    }
}

/// A complete SGR sequence (`ESC [`, a body without letters, `m`) in front of `rest`
/// strips away.
proof fn lemma_strip_sgr_prefix(body: Seq<char>, rest: Seq<char>)
    requires
        forall|k: int| 0 <= k < body.len() ==> !is_ascii_alpha(#[trigger] body[k]),
    ensures
        strip_from(sgr_seq(body) + rest, 0) == strip_from(rest, 0),
{
    let x = sgr_seq(body);
    let xr = x + rest;
    assert(xr[0] == '\x1b' && xr[1] == '[');
    assert forall|k: int| 2 <= k < x.len() - 1 implies !is_ascii_alpha(#[trigger] xr[k]) by {
        assert(xr[k] == body[k - 2]);
    }
    assert(xr[x.len() - 1] == 'm');
    lemma_csi_end_at(xr, 2, x.len() - 1);
    lemma_strip_shift(x, rest, 0);
}

/// Past the end of `a`, `a + b` has the SGR codes of `b`.
proof fn lemma_sgr_codes_shift(a: Seq<char>, b: Seq<char>, j: int)
    requires
        0 <= j <= b.len(),
    ensures
        sgr_codes_from(a + b, a.len() + j) == sgr_codes_from(b, j),
    decreases b.len() - j,
{
    if j < b.len() {
        let ab = a + b;
        assert(ab[a.len() + j] == b[j]);
        if j + 1 < b.len() {
            assert(ab[a.len() + j + 1] == b[j + 1]);
        }
        assert(csi_at(ab, a.len() + j) == csi_at(b, j));
        if csi_at(b, j) {
            lemma_csi_end_bounds(b, j + 2);
            lemma_csi_end_shift(a, b, j + 2);
            let e = csi_end(b, j + 2);
            if e > j + 2 {
                assert(ab[a.len() + e - 1] == b[e - 1]);
            }
            assert(sgr_at(ab, a.len() + j) == sgr_at(b, j));
            assert(ab.subrange(a.len() + j, a.len() + e) == b.subrange(j, e));
            lemma_sgr_codes_shift(a, b, e);
        } else {
            lemma_sgr_codes_shift(a, b, j + 1);
        }
    }
}

/// Along the scan from `i`, no visible `ESC` is followed, once the cursor codes after it
/// are dropped, by `[`: dropping cursor codes never makes a new control sequence.
pub open spec fn no_false_csi_from(s: Seq<char>, i: int) -> bool
    decreases s.len() - i,
{
    if i < 0 || i >= s.len() {
        true
    } else if csi_at(s, i) {
        proof {
            lemma_csi_end_bounds(s, i + 2);
        }
        no_false_csi_from(s, csi_end(s, i + 2))
    } else {
        &&& s[i] == '\x1b' ==> !(keep_sgr_from(s, i + 1).len() > 0 && keep_sgr_from(s, i + 1)[0] == '[')
        &&& no_false_csi_from(s, i + 1)
    }
}

proof fn lemma_keep_sgr_from(s: Seq<char>, i: int)
    requires
        0 <= i <= s.len(),
        no_false_csi_from(s, i),
    ensures
        strip_from(keep_sgr_from(s, i), 0) == strip_from(s, i),
        sgr_codes_from(keep_sgr_from(s, i), 0) == sgr_codes_from(s, i),
    decreases s.len() - i,
{
    if i < s.len() {
        if csi_at(s, i) {
            lemma_csi_end_bounds(s, i + 2);
            let e = csi_end(s, i + 2);
            lemma_keep_sgr_from(s, e);
            let k = keep_sgr_from(s, e);
            if sgr_at(s, i) {
                let x = s.subrange(i, e);
                let xk = x + k;
                assert(xk[0] == '\x1b' && xk[1] == '[');
                lemma_csi_body(s, i + 2);
                assert forall|m: int| 2 <= m < x.len() - 1 implies !is_ascii_alpha(#[trigger] xk[m]) by {
                    assert(xk[m] == s[i + m]);
                }
                assert(xk[x.len() - 1] == 'm');
                lemma_csi_end_at(xk, 2, x.len() - 1);
                lemma_strip_shift(x, k, 0);
                lemma_sgr_codes_shift(x, k, 0);
                assert(sgr_at(xk, 0));
                assert(xk.subrange(0, x.len() as int) == x);
            }
        } else {
            lemma_keep_sgr_from(s, i + 1);
            let c = s[i];
            let k = keep_sgr_from(s, i + 1);
            let ck = seq![c] + k;
            if k.len() > 0 {
                assert(ck[1] == k[0]);
            }
            assert(!csi_at(ck, 0));
            lemma_strip_shift(seq![c], k, 0);
            lemma_sgr_codes_shift(seq![c], k, 0);
        }
    }
}

/// Dropping cursor codes changes neither the visible text nor the colour codes of a
/// string, unless a visible `ESC` would then run into a `[` and start a new sequence.
pub proof fn lemma_cursor_codes_keep_text_and_colours(s: Seq<char>)
    requires
        no_false_csi_from(s, 0),
    ensures
        strip_ansi_spec(keep_sgr_from(s, 0)) == strip_ansi_spec(s),
        sgr_codes_from(keep_sgr_from(s, 0), 0) == sgr_codes_from(s, 0),
{
    lemma_keep_sgr_from(s, 0);
}

/// Past the end of `a`, `a + b` keeps what `b` keeps.
proof fn lemma_keep_sgr_shift(a: Seq<char>, b: Seq<char>, j: int)
    requires
        0 <= j <= b.len(),
    ensures
        keep_sgr_from(a + b, a.len() + j) == keep_sgr_from(b, j),
    decreases b.len() - j,
{
    if j < b.len() {
        let ab = a + b;
        assert(ab[a.len() + j] == b[j]);
        if j + 1 < b.len() {
            assert(ab[a.len() + j + 1] == b[j + 1]);
        }
        assert(csi_at(ab, a.len() + j) == csi_at(b, j));
        if csi_at(b, j) {
            lemma_csi_end_bounds(b, j + 2);
            lemma_csi_end_shift(a, b, j + 2);
            let e = csi_end(b, j + 2);
            if e > j + 2 {
                assert(ab[a.len() + e - 1] == b[e - 1]);
            }
            assert(sgr_at(ab, a.len() + j) == sgr_at(b, j));
            assert(ab.subrange(a.len() + j, a.len() + e) == b.subrange(j, e));
            lemma_keep_sgr_shift(a, b, e);
        } else {
            lemma_keep_sgr_shift(a, b, j + 1);
        }
    }
}

proof fn lemma_keep_sgr_twice(s: Seq<char>, i: int)
    requires
        0 <= i <= s.len(),
        no_false_csi_from(s, i),
    ensures
        keep_sgr_from(keep_sgr_from(s, i), 0) == keep_sgr_from(s, i),
    decreases s.len() - i,
{
    if i < s.len() {
        if csi_at(s, i) {
            lemma_csi_end_bounds(s, i + 2);
            let e = csi_end(s, i + 2);
            lemma_keep_sgr_twice(s, e);
            let k = keep_sgr_from(s, e);
            if sgr_at(s, i) {
                let x = s.subrange(i, e);
                let xk = x + k;
                assert(xk[0] == '\x1b' && xk[1] == '[');
                lemma_csi_body(s, i + 2);
                assert forall|m: int| 2 <= m < x.len() - 1 implies !is_ascii_alpha(#[trigger] xk[m]) by {
                    assert(xk[m] == s[i + m]);
                }
                assert(xk[x.len() - 1] == 'm');
                lemma_csi_end_at(xk, 2, x.len() - 1);
                assert(sgr_at(xk, 0));
                assert(xk.subrange(0, x.len() as int) == x);
                lemma_keep_sgr_shift(x, k, 0);
            } else {
                assert(keep_sgr_from(s, i) == k);
            }
        } else {
            lemma_keep_sgr_twice(s, i + 1);
            let c = s[i];
            let k = keep_sgr_from(s, i + 1);
            let ck = seq![c] + k;
            if k.len() > 0 {
                assert(ck[1] == k[0]);
            }
            assert(!csi_at(ck, 0));
            lemma_keep_sgr_shift(seq![c], k, 0);
        }
    }
}

/// Dropping cursor codes a second time changes nothing, unless a visible `ESC` would run
/// into a `[` once the cursor codes after it are dropped.
pub proof fn lemma_cursor_codes_idempotent(s: Seq<char>)
    requires
        no_false_csi_from(s, 0),
    ensures
        keep_sgr_from(keep_sgr_from(s, 0), 0) == keep_sgr_from(s, 0),
{
    lemma_keep_sgr_twice(s, 0);
}

proof fn lemma_escapes_open_from(s: Seq<char>, i: int)
    requires
        0 <= i,
        forall|k: int| 0 <= k < s.len() && #[trigger] s[k] == '\x1b' ==> k + 1 < s.len() && s[k + 1] == '[',
    ensures
        no_false_csi_from(s, i),
    decreases s.len() - i,
{
    if i < s.len() {
        if csi_at(s, i) {
            lemma_csi_end_bounds(s, i + 2);
            lemma_escapes_open_from(s, csi_end(s, i + 2));
        } else {
            lemma_escapes_open_from(s, i + 1);
        }
    }
}

/// A string in which every `ESC` opens a control sequence never makes a new one when its
/// cursor codes are dropped.
pub proof fn lemma_escapes_open_sequences(s: Seq<char>)
    requires
        forall|k: int| 0 <= k < s.len() && #[trigger] s[k] == '\x1b' ==> k + 1 < s.len() && s[k + 1] == '[',
    ensures
        no_false_csi_from(s, 0),
{
    lemma_escapes_open_from(s, 0);
}

/// The first character of a truncation from `j` is the character at `j`.
proof fn lemma_truncate_first(s: Seq<char>, j: int, visible: int, max_width: int)
    requires
        0 <= j,
        truncate_from(s, j, visible, max_width).len() > 0,
    ensures
        j < s.len(),
        truncate_from(s, j, visible, max_width)[0] == s[j],
{
    if csi_at(s, j) {
        lemma_csi_end_bounds(s, j + 2);
    }
}

/// What the visible text of `t` is once cut to `n` characters.
pub open spec fn cut(t: Seq<char>, n: int) -> Seq<char> {
    if t.len() <= n {
        t
    } else {
        t.take(n)
    }
}

proof fn lemma_truncate_visible_from(s: Seq<char>, i: int, visible: int, max_width: int)
    requires
        0 <= i <= s.len(),
        0 <= visible <= max_width,
    ensures
        strip_from(truncate_from(s, i, visible, max_width), 0) == cut(strip_from(s, i), max_width - visible),
    decreases s.len() - i,
{
    if i < s.len() {
        if csi_at(s, i) {
            lemma_csi_end_bounds(s, i + 2);
            let e = csi_end(s, i + 2);
            let x = s.subrange(i, e);
            let t = truncate_from(s, e, visible, max_width);
            lemma_truncate_visible_from(s, e, visible, max_width);
            let xt = x + t;
            assert(xt[0] == '\x1b' && xt[1] == '[');
            assert(csi_at(xt, 0));
            lemma_csi_body(s, i + 2);
            if e > i + 2 && is_ascii_alpha(s[e - 1]) {
                assert forall|k: int| 2 <= k < x.len() - 1 implies !is_ascii_alpha(#[trigger] xt[k]) by {
                    assert(xt[k] == s[i + k]);
                }
                assert(xt[x.len() - 1] == s[e - 1]);
                lemma_csi_end_at(xt, 2, x.len() - 1);
                lemma_strip_shift(x, t, 0);
            } else {
                assert(e == s.len());
                assert(t == Seq::<char>::empty());
                assert(xt == x);
                assert forall|k: int| 2 <= k < xt.len() implies !is_ascii_alpha(#[trigger] xt[k]) by {
                    assert(xt[k] == s[i + k]);
                    if i + k < e - 1 {
                        assert(!is_ascii_alpha(s[i + k]));
                    }
                }
                lemma_csi_end_open(xt, 2);
                assert(strip_from(xt, 0) == strip_from(xt, xt.len() as int));
            }
            assert(strip_from(xt, 0) == strip_from(t, 0));
            assert(strip_from(s, i) == strip_from(s, e));
        } else if visible < max_width {
            let c = s[i];
            let t = truncate_from(s, i + 1, visible + 1, max_width);
            lemma_truncate_visible_from(s, i + 1, visible + 1, max_width);
            let ct = seq![c] + t;
            if t.len() > 0 {
                lemma_truncate_first(s, i + 1, visible + 1, max_width);
                assert(ct[1] == s[i + 1]);
            }
            assert(!csi_at(ct, 0));
            lemma_strip_shift(seq![c], t, 0);
            let rest = strip_from(s, i + 1);
            assert(strip_from(ct, 0) == seq![c] + strip_from(ct, 1));
            assert(strip_from(s, i) == seq![c] + rest);
            if rest.len() > max_width - visible - 1 {
                assert((seq![c] + rest).take(max_width - visible) == seq![c] + rest.take(max_width - visible - 1));
            }
        } else {
            assert(truncate_from(s, i, visible, max_width) == Seq::<char>::empty());
            assert(strip_from(Seq::<char>::empty(), 0) == Seq::<char>::empty());
            assert(strip_from(s, i).take(0) == Seq::<char>::empty());
        }
    } else {
        assert(strip_from(Seq::<char>::empty(), 0) == Seq::<char>::empty());
    }
}

/// Truncation keeps the first `max_width` visible characters of a string (all of them when
/// it has no more), and no other visible character.
pub proof fn lemma_truncate_keeps_visible_prefix(s: Seq<char>, max_width: nat)
    ensures
        strip_ansi_spec(truncate_from(s, 0, 0, max_width as int)) == cut(strip_ansi_spec(s), max_width as int),
{
    lemma_truncate_visible_from(s, 0, 0, max_width as int);
}

// ── Carried colours ─────────────────────────────────────────────────────────

proof fn lemma_decimal_digits(n: nat)
    ensures
        forall|k: int| 0 <= k < decimal(n).len() ==> '0' <= #[trigger] decimal(n)[k] <= '9',
    decreases n,
{
    if n >= 10 {
        lemma_decimal_digits(n / 10);
        let d = decimal(n / 10);
        assert(decimal(n) == d.push(digit_char(n % 10)));
        assert forall|k: int| 0 <= k < decimal(n).len() implies '0' <= #[trigger] decimal(n)[k] <= '9' by {
            if k < d.len() {
                assert(decimal(n)[k] == d[k]);
            }
        }
    }
}

/// The state prefix is nothing but SGR sequences: it strips away in front of any line.
proof fn lemma_strip_state_prefix(st: GraphicsState, line: Seq<char>)
    ensures
        strip_from(state_prefix(st) + line, 0) == strip_from(line, 0),
{
    if st != initial_state() {
        let fgp = fg_prefix(st.fg);
        assert(strip_from(fgp + line, 0) == strip_from(line, 0)) by {
            match st.fg {
                Fg::Default => {
                    assert(fgp + line == line);
                },
                Fg::Ansi(n) => {
                    lemma_decimal_digits(n as nat);
                    lemma_strip_sgr_prefix(decimal(n as nat), line);
                },
                Fg::Color256(n) => {
                    lemma_decimal_digits(n as nat);
                    let body = seq!['3', '8', ';', '5', ';'] + decimal(n as nat);
                    assert forall|k: int| 0 <= k < body.len() implies !is_ascii_alpha(#[trigger] body[k]) by {
                        if k >= 5 {
                            assert(body[k] == decimal(n as nat)[k - 5]);
                        }
                    }
                    lemma_strip_sgr_prefix(body, line);
                },
                Fg::Rgb(r, g, b) => {
                    lemma_decimal_digits(r as nat);
                    lemma_decimal_digits(g as nat);
                    lemma_decimal_digits(b as nat);
                    let dr = decimal(r as nat);
                    let dg = decimal(g as nat);
                    let db = decimal(b as nat);
                    let body = seq!['3', '8', ';', '2', ';'] + dr + seq![';'] + dg + seq![';'] + db;
                    assert forall|k: int| 0 <= k < body.len() implies !is_ascii_alpha(#[trigger] body[k]) by {
                        let a1 = 5 + dr.len();
                        let a2 = a1 + 1 + dg.len();
                        if 5 <= k < a1 {
                            assert(body[k] == dr[k - 5]);
                        } else if a1 + 1 <= k < a2 {
                            assert(body[k] == dg[k - a1 - 1]);
                        } else if a2 + 1 <= k {
                            assert(body[k] == db[k - a2 - 1]);
                        }
                    }
                    lemma_strip_sgr_prefix(body, line);
                },
            }
        }
        if st.bold {
            assert(state_prefix(st) + line == sgr_seq(seq!['1']) + (fgp + line));
            lemma_strip_sgr_prefix(seq!['1'], fgp + line);
        } else {
            assert(state_prefix(st) + line == fgp + line);
        }
    } else {
        assert(state_prefix(st) + line == line);
    }
}

/// A line and what it became keep the same visible text, the line ending what it became.
pub open spec fn keeps_text(line: Seq<char>, out: Seq<char>) -> bool {
    &&& strip_ansi_spec(out) == strip_ansi_spec(line)
    &&& line.is_suffix_of(out)
}

proof fn lemma_propagate_len(lines: Seq<String>, marker: char, i: int, st: GraphicsState)
    requires
        0 <= i <= lines.len(),
    ensures
        propagate_from(lines, marker, i, st).len() == lines.len() - i,
    decreases lines.len() - i,
{
    if i < lines.len() {
        let line = lines[i]@;
        if visual_width_spec(line, marker) == 0 {
            lemma_propagate_len(lines, marker, i + 1, st);
        } else {
            let out = if crate::layout::inherits_sgr(line, st) { state_prefix(st) + line } else { line };
            lemma_propagate_len(lines, marker, i + 1, crate::layout::line_state(out));
        }
    }
}

#[verifier::spinoff_prover]
proof fn lemma_propagate_line(lines: Seq<String>, marker: char, i: int, st: GraphicsState, k: int)
    requires
        0 <= i,
        0 <= k < lines.len() - i,
    ensures
        keeps_text(lines[i + k]@, propagate_from(lines, marker, i, st)[k]),
    decreases k,
{
    let line = lines[i]@;
    if visual_width_spec(line, marker) == 0 {
        let q = propagate_from(lines, marker, i + 1, st);
        lemma_propagate_len(lines, marker, i + 1, st);
        assert(propagate_from(lines, marker, i, st) == seq![line] + q);
        if k == 0 {
            assert(line.subrange(0, line.len() as int) == line);
            assert(propagate_from(lines, marker, i, st)[k] == line);
        } else {
            lemma_propagate_line(lines, marker, i + 1, st, k - 1);
            assert(propagate_from(lines, marker, i, st)[k] == q[k - 1]);
        }
    } else {
        let out = if crate::layout::inherits_sgr(line, st) { state_prefix(st) + line } else { line };
        let q = propagate_from(lines, marker, i + 1, crate::layout::line_state(out));
        lemma_propagate_len(lines, marker, i + 1, crate::layout::line_state(out));
        assert(propagate_from(lines, marker, i, st) == seq![out] + q);
        if k == 0 {
            lemma_strip_state_prefix(st, line);
            if crate::layout::inherits_sgr(line, st) {
                assert(out.subrange(out.len() - line.len(), out.len() as int) == line);
            } else {
                assert(line.subrange(0, line.len() as int) == line);
            }
            assert(propagate_from(lines, marker, i, st)[k] == out);
        } else {
            lemma_propagate_line(lines, marker, i + 1, crate::layout::line_state(out), k - 1);
            assert(propagate_from(lines, marker, i, st)[k] == q[k - 1]);
        }
    }
}

/// Carrying colours across lines keeps the number of lines and every line's visible text:
/// a line only ever gains SGR sequences in front of it.
pub proof fn lemma_propagate_keeps_text(lines: Seq<String>, marker: char)
    ensures
        propagate_from(lines, marker, 0, initial_state()).len() == lines.len(),
        forall|k: int|
            0 <= k < lines.len() ==> keeps_text(lines[k]@, #[trigger] propagate_from(lines, marker, 0, initial_state())[k]),
{
    lemma_propagate_len(lines, marker, 0, initial_state());
    assert forall|k: int| 0 <= k < lines.len() implies keeps_text(
        lines[k]@,
        #[trigger] propagate_from(lines, marker, 0, initial_state())[k],
    ) by {
        lemma_propagate_line(lines, marker, 0, initial_state(), k);
    }
}

// ── Graphics state prefixes ─────────────────────────────────────────────────

proof fn lemma_line_state_shift(a: Seq<char>, b: Seq<char>, j: int, st: GraphicsState)
    requires
        0 <= j <= b.len(),
    ensures
        line_state_from(a + b, a.len() + j, st) == line_state_from(b, j, st),
    decreases b.len() - j,
{
    if j < b.len() {
        let ab = a + b;
        assert(ab[a.len() + j] == b[j]);
        if j + 1 < b.len() {
            assert(ab[a.len() + j + 1] == b[j + 1]);
        }
        assert(csi_at(ab, a.len() + j) == csi_at(b, j));
        if csi_at(b, j) {
            lemma_csi_end_bounds(b, j + 2);
            lemma_csi_end_shift(a, b, j + 2);
            let e = csi_end(b, j + 2);
            if e > j + 2 {
                assert(ab[a.len() + e - 1] == b[e - 1]);
                assert(ab.subrange(a.len() + j + 2, a.len() + e - 1) == b.subrange(j + 2, e - 1));
            }
            assert(sgr_at(ab, a.len() + j) == sgr_at(b, j));
            if sgr_at(b, j) {
                lemma_line_state_shift(a, b, e, apply_sgr_from(sgr_param_nums(b.subrange(j + 2, e - 1)), 0, st));
            } else {
                lemma_line_state_shift(a, b, e, st);
            }
        } else {
            lemma_line_state_shift(a, b, j + 1, st);
        }
    }
}

/// An SGR sequence in front of `rest` applies its parameters, then `rest` goes on.
proof fn lemma_line_state_sgr(body: Seq<char>, rest: Seq<char>, st: GraphicsState)
    requires
        forall|k: int| 0 <= k < body.len() ==> !is_ascii_alpha(#[trigger] body[k]),
    ensures
        line_state_from(sgr_seq(body) + rest, 0, st) == line_state_from(
            rest,
            0,
            apply_sgr_from(sgr_param_nums(body), 0, st),
        ),
{
    let x = sgr_seq(body);
    let xr = x + rest;
    assert(xr[0] == '\x1b' && xr[1] == '[');
    assert forall|k: int| 2 <= k < x.len() - 1 implies !is_ascii_alpha(#[trigger] xr[k]) by {
        assert(xr[k] == body[k - 2]);
    }
    assert(xr[x.len() - 1] == 'm');
    lemma_csi_end_at(xr, 2, x.len() - 1);
    assert(sgr_at(xr, 0));
    assert(xr.subrange(2, x.len() - 1) == body);
    lemma_line_state_shift(x, rest, 0, apply_sgr_from(sgr_param_nums(body), 0, st));
}

proof fn lemma_decimal_value(n: nat)
    ensures
        decimal(n).len() > 0,
        all_digits(decimal(n)),
        digits_value(decimal(n)) == n,
    decreases n,
{
    lemma_decimal_digits(n);
    if n >= 10 {
        lemma_decimal_value(n / 10);
        let d = decimal(n / 10);
        assert(decimal(n) == d.push(digit_char(n % 10)));
        assert(decimal(n).drop_last() == d);
        assert(decimal(n).last() == digit_char(n % 10));
        assert((digit_char(n % 10) as int) == n % 10 + 48);
        assert(digits_value(decimal(n)) == digits_value(d) * 10 + ((digit_char(n % 10) as int) - 48) as nat);
        assert((n / 10) * 10 + n % 10 == n) by (nonlinear_arith);
    } else {
        assert(decimal(n) == seq![digit_char(n)]);
        assert(decimal(n).drop_last() == Seq::<char>::empty());
        assert(decimal(n).last() == digit_char(n));
        assert((digit_char(n) as int) == n + 48);
        assert(digits_value(Seq::<char>::empty()) == 0);
        assert(digits_value(decimal(n)) == digits_value(Seq::<char>::empty()) * 10 + ((digit_char(n) as int) - 48) as nat);
    }
}

/// A number written in decimal reads back as itself.
proof fn lemma_decimal_field(n: nat)
    requires
        n <= usize::MAX,
    ensures
        field_value(decimal(n)) == n,
        forall|k: int| 0 <= k < decimal(n).len() ==> #[trigger] decimal(n)[k] != ';',
{
    lemma_decimal_value(n);
    lemma_decimal_digits(n);
    assert(decimal(n)[0] != '+');
    assert(unsigned_digits(decimal(n)) == decimal(n));
    assert(parse_usize_spec(decimal(n)) == Some(n));
}

proof fn lemma_split_no_marker(s: Seq<char>, t: Seq<char>, m: char)
    requires
        forall|k: int| 0 <= k < t.len() ==> #[trigger] t[k] != m,
    ensures
        split_at_markers(s + t, m) == split_at_markers(s, m).update(
            split_at_markers(s, m).len() - 1,
            split_at_markers(s, m).last() + t,
        ),
    decreases t.len(),
{
    lemma_split_nonempty(s, m);
    if t.len() == 0 {
        assert(s + t == s);
        assert(split_at_markers(s, m).last() + t == split_at_markers(s, m).last());
        assert(split_at_markers(s, m).update(split_at_markers(s, m).len() - 1, split_at_markers(s, m).last())
            == split_at_markers(s, m));
    } else {
        let t0 = t.drop_last();
        lemma_split_no_marker(s, t0, m);
        assert((s + t).drop_last() == s + t0);
        assert((s + t).last() == t.last());
        lemma_split_nonempty(s + t0, m);
        let big = split_at_markers(s, m);
        let p = split_at_markers(s + t0, m);
        assert(t[t.len() - 1] != m);
        assert(p.len() == big.len());
        assert(p.last() == big.last() + t0);
        assert(split_at_markers(s + t, m) == p.update(p.len() - 1, p.last().push(t.last())));
        assert(big.last() + t0 + seq![t.last()] == big.last() + t);
        assert(p.last().push(t.last()) == big.last() + t);
        assert(p.update(p.len() - 1, big.last() + t) =~= big.update(big.len() - 1, big.last() + t));
    }
}

proof fn lemma_split_then_marker(s: Seq<char>, m: char)
    ensures
        split_at_markers(s + seq![m], m) == split_at_markers(s, m).push(seq![]),
{
    assert((s + seq![m]).drop_last() == s);
}

/// The numbers of `38;5;n`, `38;2;r;g;b` and `n`.
proof fn lemma_fg_nums(fg: Fg)
    ensures
        fg matches Fg::Ansi(n) ==> sgr_param_nums(decimal(n as nat)) == seq![n as usize],
        fg matches Fg::Color256(n) ==> sgr_param_nums(seq!['3', '8', ';', '5', ';'] + decimal(n as nat)) == seq![
            38usize,
            5,
            n as usize,
        ],
        fg matches Fg::Rgb(r, g, b) ==> sgr_param_nums(
            seq!['3', '8', ';', '2', ';'] + decimal(r as nat) + seq![';'] + decimal(g as nat) + seq![';'] + decimal(
                b as nat,
            ),
        ) == seq![38usize, 2, r as usize, g as usize, b as usize],
{
    let e = Seq::<char>::empty();
    let d38 = decimal(38);
    assert(d38 == seq!['3', '8']) by {
        assert(decimal(3) == seq!['3']);
    }
    lemma_decimal_field(38);
    lemma_split_no_marker(e, d38, ';');
    assert(e + d38 == d38);
    assert(split_at_markers(e, ';') == seq![e]);
    let p38 = split_at_markers(d38, ';');
    assert(p38 == seq![d38]);
    lemma_split_then_marker(d38, ';');
    let s1 = d38 + seq![';'];
    match fg {
        Fg::Default => {},
        Fg::Ansi(n) => {
            lemma_decimal_field(n as nat);
            lemma_split_no_marker(e, decimal(n as nat), ';');
            assert(e + decimal(n as nat) == decimal(n as nat));
            assert(split_at_markers(decimal(n as nat), ';') == seq![decimal(n as nat)]);
        },
        Fg::Color256(n) => {
            let d5 = decimal(5);
            let dn = decimal(n as nat);
            lemma_decimal_field(5);
            lemma_decimal_field(n as nat);
            lemma_split_no_marker(s1, d5, ';');
            let s2 = s1 + d5;
            lemma_split_then_marker(s2, ';');
            let s3 = s2 + seq![';'];
            lemma_split_no_marker(s3, dn, ';');
            assert(split_at_markers(s3 + dn, ';') == seq![d38, d5, dn]);
            assert(s3 + dn == seq!['3', '8', ';', '5', ';'] + dn);
        },
        Fg::Rgb(r, g, b) => {
            let d2 = decimal(2);
            let dr = decimal(r as nat);
            let dg = decimal(g as nat);
            let db = decimal(b as nat);
            lemma_decimal_field(2);
            lemma_decimal_field(r as nat);
            lemma_decimal_field(g as nat);
            lemma_decimal_field(b as nat);
            lemma_split_no_marker(s1, d2, ';');
            let s2 = s1 + d2;
            lemma_split_then_marker(s2, ';');
            let s3 = s2 + seq![';'];
            lemma_split_no_marker(s3, dr, ';');
            let s4 = s3 + dr;
            lemma_split_then_marker(s4, ';');
            let s5 = s4 + seq![';'];
            lemma_split_no_marker(s5, dg, ';');
            let s6 = s5 + dg;
            lemma_split_then_marker(s6, ';');
            let s7 = s6 + seq![';'];
            lemma_split_no_marker(s7, db, ';');
            assert(split_at_markers(s7 + db, ';') == seq![d38, d2, dr, dg, db]);
            assert(s7 + db == seq!['3', '8', ';', '2', ';'] + dr + seq![';'] + dg + seq![';'] + db);
        },
    }
}

/// A state that applying SGR parameters can produce: a basic foreground is one of the
/// codes 30–37 and 90–97.
pub open spec fn state_reachable(st: GraphicsState) -> bool {
    match st.fg {
        Fg::Ansi(n) => (30 <= n <= 37) || (90 <= n <= 97),
        _ => true,
    }
}

/// Applying the foreground parameters of `fg` sets the foreground to `fg`.
proof fn lemma_apply_fg(fg: Fg, st: GraphicsState)
    requires
        state_reachable(GraphicsState { bold: st.bold, fg }),
        fg != Fg::Default,
    ensures
        line_state_from(fg_prefix(fg), 0, st) == (GraphicsState { bold: st.bold, fg }),
{
    lemma_fg_nums(fg);
    let e = Seq::<char>::empty();
    match fg {
        Fg::Default => {},
        Fg::Ansi(n) => {
            lemma_decimal_digits(n as nat);
            lemma_line_state_sgr(decimal(n as nat), e, st);
            assert(sgr_seq(decimal(n as nat)) + e == fg_prefix(fg));
            let nums = seq![n as usize];
            assert(apply_sgr_from(nums, 1, GraphicsState { fg: Fg::Ansi(n), ..st }) == GraphicsState { fg: Fg::Ansi(n), ..st });
        },
        Fg::Color256(n) => {
            let body = seq!['3', '8', ';', '5', ';'] + decimal(n as nat);
            lemma_decimal_digits(n as nat);
            assert forall|k: int| 0 <= k < body.len() implies !is_ascii_alpha(#[trigger] body[k]) by {
                if k >= 5 {
                    assert(body[k] == decimal(n as nat)[k - 5]);
                }
            }
            lemma_line_state_sgr(body, e, st);
            assert(sgr_seq(body) + e == fg_prefix(fg));
            let nums = seq![38usize, 5, n as usize];
            assert(apply_sgr_from(nums, 3, GraphicsState { fg: Fg::Color256(n), ..st }) == GraphicsState {
                fg: Fg::Color256(n),
                ..st
            });
        },
        Fg::Rgb(r, g, b) => {
            let dr = decimal(r as nat);
            let dg = decimal(g as nat);
            let db = decimal(b as nat);
            let body = seq!['3', '8', ';', '2', ';'] + dr + seq![';'] + dg + seq![';'] + db;
            lemma_decimal_digits(r as nat);
            lemma_decimal_digits(g as nat);
            lemma_decimal_digits(b as nat);
            assert forall|k: int| 0 <= k < body.len() implies !is_ascii_alpha(#[trigger] body[k]) by {
                let a1 = 5 + dr.len();
                let a2 = a1 + 1 + dg.len();
                if 5 <= k < a1 {
                    assert(body[k] == dr[k - 5]);
                } else if a1 + 1 <= k < a2 {
                    assert(body[k] == dg[k - a1 - 1]);
                } else if a2 + 1 <= k {
                    assert(body[k] == db[k - a2 - 1]);
                }
            }
            lemma_line_state_sgr(body, e, st);
            assert(sgr_seq(body) + e == fg_prefix(fg));
            let nums = seq![38usize, 2, r as usize, g as usize, b as usize];
            assert(apply_sgr_from(nums, 5, GraphicsState { fg: Fg::Rgb(r, g, b), ..st }) == GraphicsState {
                fg: Fg::Rgb(r, g, b),
                ..st
            });
        },
    }
}

/// Reading back the prefix of a state gives the state: `parse_sgr_line` of `to_prefix`
/// reproduces every state that SGR parameters can produce.
pub proof fn lemma_prefix_reads_back(st: GraphicsState)
    requires
        state_reachable(st),
    ensures
        line_state(state_prefix(st)) == st,
{
    let e = Seq::<char>::empty();
    if st == initial_state() {
        assert(state_prefix(st) == e);
    } else if st.bold {
        let one = seq!['1'];
        let bold = GraphicsState { bold: true, fg: Fg::Default };
        assert(decimal(1) == one);
        lemma_decimal_field(1);
        lemma_split_no_marker(e, one, ';');
        assert(e + one == one);
        assert(sgr_param_nums(one) == seq![1usize]);
        assert(apply_sgr_from(seq![1usize], 1, bold) == bold);
        lemma_line_state_sgr(one, fg_prefix(st.fg), initial_state());
        assert(state_prefix(st) == sgr_seq(one) + fg_prefix(st.fg));
        if st.fg == Fg::Default {
            assert(fg_prefix(st.fg) == e);
        } else {
            lemma_apply_fg(st.fg, bold);
        }
    } else {
        assert(st.fg != Fg::Default);
        assert(state_prefix(st) == fg_prefix(st.fg));
        lemma_apply_fg(st.fg, initial_state());
    }
}

// ── Marker regions ──────────────────────────────────────────────────────────

/// `s` without the character `marker`.
pub open spec fn unmarked(s: Seq<char>, marker: char) -> Seq<char> {
    s.filter(|c: char| c != marker)
}

/// The texts of `segs` one after another.
pub open spec fn segment_text(segs: Seq<(bool, Seq<char>)>) -> Seq<char> {
    segs.map_values(|g: (bool, Seq<char>)| g.1).flatten()
}

proof fn lemma_split_pieces(s: Seq<char>, marker: char)
    ensures
        split_at_markers(s, marker).flatten() == unmarked(s, marker),
        forall|j: int|
            0 <= j < split_at_markers(s, marker).len() ==> !(#[trigger] split_at_markers(s, marker)[j]).contains(
                marker,
            ),
    decreases s.len(),
{
    reveal(Seq::filter);
    lemma_split_nonempty(s, marker);
    if s.len() == 0 {
        let p = split_at_markers(s, marker);
        assert(p == seq![Seq::<char>::empty()]);
        p.lemma_flatten_one_element();
        assert(unmarked(s, marker) == Seq::<char>::empty());
    } else {
        lemma_split_pieces(s.drop_last(), marker);
        lemma_split_nonempty(s.drop_last(), marker);
        let p = split_at_markers(s.drop_last(), marker);
        let c = s.last();
        if c == marker {
            p.lemma_flatten_push(seq![]);
            assert(split_at_markers(s, marker) == p.push(seq![]));
            assert(unmarked(s, marker) == unmarked(s.drop_last(), marker));
            assert forall|j: int| 0 <= j < split_at_markers(s, marker).len() implies !(#[trigger] split_at_markers(
                s,
                marker,
            )[j]).contains(marker) by {
                if j < p.len() {
                    assert(split_at_markers(s, marker)[j] == p[j]);
                } else {
                    assert(split_at_markers(s, marker)[j] == Seq::<char>::empty());
                }
            }
        } else {
            let q = p.drop_last();
            assert(p == q.push(p.last()));
            q.lemma_flatten_push(p.last());
            q.lemma_flatten_push(p.last().push(c));
            assert(split_at_markers(s, marker) == q.push(p.last().push(c)));
            assert(unmarked(s, marker) == unmarked(s.drop_last(), marker).push(c));
            assert(q.flatten() + p.last().push(c) == (q.flatten() + p.last()).push(c));
            assert forall|j: int| 0 <= j < split_at_markers(s, marker).len() implies !(#[trigger] split_at_markers(
                s,
                marker,
            )[j]).contains(marker) by {
                if j < q.len() {
                    assert(split_at_markers(s, marker)[j] == p[j]);
                } else {
                    let piece = p.last().push(c);
                    assert(split_at_markers(s, marker)[j] == piece);
                    assert(!p[p.len() - 1].contains(marker));
                    if piece.contains(marker) {
                        let k = choose|k: int| 0 <= k < piece.len() && piece[k] == marker;
                        if k < p.last().len() {
                            assert(p.last()[k] == marker);
                        }
                    }
                }
            }
        }
    }
}

proof fn lemma_marked_pieces(pieces: Seq<Seq<char>>)
    ensures
        segment_text(marked_segments(pieces)) == pieces.flatten(),
        forall|g: int|
            0 <= g < marked_segments(pieces).len() ==> (#[trigger] marked_segments(pieces)[g]).1.len() > 0
                && exists|j: int| 0 <= j < pieces.len() && marked_segments(pieces)[g].1 == pieces[j],
    decreases pieces.len(),
{
    if pieces.len() == 0 {
        assert(marked_segments(pieces) == Seq::<(bool, Seq<char>)>::empty());
        assert(marked_segments(pieces).map_values(|g: (bool, Seq<char>)| g.1) == Seq::<Seq<char>>::empty());
    } else {
        let rest = pieces.drop_last();
        let last = pieces.last();
        lemma_marked_pieces(rest);
        assert(pieces == rest.push(last));
        rest.lemma_flatten_push(last);
        let m = marked_segments(rest);
        let texts = m.map_values(|g: (bool, Seq<char>)| g.1);
        if last.len() > 0 {
            let seg = ((pieces.len() - 1) % 2 == 1, last);
            assert(marked_segments(pieces) == m.push(seg));
            assert(marked_segments(pieces).map_values(|g: (bool, Seq<char>)| g.1) == texts.push(last));
            texts.lemma_flatten_push(last);
        } else {
            assert(marked_segments(pieces) == m);
            assert(rest.flatten() + last == rest.flatten());
        }
        assert forall|g: int| 0 <= g < marked_segments(pieces).len() implies (#[trigger] marked_segments(
            pieces,
        )[g]).1.len() > 0 && exists|j: int| 0 <= j < pieces.len() && marked_segments(pieces)[g].1 == pieces[j] by {
            if g < m.len() {
                assert(marked_segments(pieces)[g] == m[g]);
                let j = choose|j: int| 0 <= j < rest.len() && m[g].1 == rest[j];
                assert(pieces[j] == rest[j]);
            } else {
                assert(marked_segments(pieces)[g].1 == pieces[pieces.len() - 1]);
            }
        }
    }
}

/// The segments of a line, put back together, are the line without its marker characters;
/// no segment is empty, and none holds a marker character.
pub proof fn lemma_segments_rebuild_line(line: Seq<char>, marker: char)
    ensures
        segment_text(parse_markers_spec(line, marker)) == unmarked(line, marker),
        forall|g: int|
            0 <= g < parse_markers_spec(line, marker).len() ==> {
                &&& (#[trigger] parse_markers_spec(line, marker)[g]).1.len() > 0
                &&& !parse_markers_spec(line, marker)[g].1.contains(marker)
            },
{
    let pieces = split_at_markers(line, marker);
    lemma_split_pieces(line, marker);
    lemma_marked_pieces(pieces);
    assert forall|g: int| 0 <= g < parse_markers_spec(line, marker).len() implies {
        &&& (#[trigger] parse_markers_spec(line, marker)[g]).1.len() > 0
        &&& !parse_markers_spec(line, marker)[g].1.contains(marker)
    } by {
        let j = choose|j: int| 0 <= j < pieces.len() && marked_segments(pieces)[g].1 == pieces[j];
        assert(!pieces[j].contains(marker));
    }
}

// ── Lines and columns ───────────────────────────────────────────────────────

/// Trimming keeps every line up to the last one with visible content: that line (if any)
/// has visible content, and every line after it has none.
pub proof fn lemma_trim_keeps_content(lines: Seq<Seq<char>>, marker: char)
    ensures
        content_end(lines, marker) <= lines.len(),
        content_end(lines, marker) > 0 ==> visual_width_spec(lines[content_end(lines, marker) - 1], marker) > 0,
        forall|k: int|
            content_end(lines, marker) <= k < lines.len() ==> visual_width_spec(#[trigger] lines[k], marker) == 0,
    decreases lines.len(),
{
    if lines.len() > 0 {
        lemma_trim_keeps_content(lines.drop_last(), marker);
        if visual_width_spec(lines.last(), marker) == 0 {
            assert forall|k: int|
                content_end(lines, marker) <= k < lines.len() implies visual_width_spec(#[trigger] lines[k], marker)
                == 0 by {
                if k < lines.len() - 1 {
                    assert(lines.drop_last()[k] == lines[k]);
                }
            }
            if content_end(lines, marker) > 0 {
                assert(lines.drop_last()[content_end(lines, marker) - 1] == lines[content_end(lines, marker) - 1]);
            }
        }
    }
}

/// In every row of a layout, each column but the last ends (its visible text, then its
/// padding) at its widest line plus `gap`, so the next column starts at the same place in
/// every row; the last column gets no padding.
pub proof fn lemma_columns_aligned(cols: Seq<Seq<Seq<char>>>, gap: int, marker: char, row: int, ci: int)
    requires
        0 <= row,
        0 <= ci < cols.len(),
        0 <= gap,
    ensures
        ci + 1 < cols.len() ==> cell_padding(cols, gap, marker, row, ci) >= gap,
        ci + 1 < cols.len() ==> visual_width_spec(cell_text(cols, row, ci), marker) + cell_padding(
            cols,
            gap,
            marker,
            row,
            ci,
        ) == max_width_of(cols[ci], marker) + gap,
        ci + 1 == cols.len() ==> cell_padding(cols, gap, marker, row, ci) == 0,
{
    if row < cols[ci].len() {
        lemma_max_width_bounds(cols[ci], marker, row);
    } else {
        assert(strip_from(Seq::<char>::empty(), 0) == Seq::<char>::empty());
        assert(Seq::<char>::empty().filter(|c: char| c != marker) == Seq::<char>::empty()) by {
            reveal(Seq::filter);
        }
    }
}

// ── The last frame ──────────────────────────────────────────────────────────

/// Every scrambled character of `seg` shows as itself at `frame`.
pub open spec fn seg_real(seg: ReadySegment, frame: int) -> bool {
    match seg {
        ReadySegment::Static(_) => true,
        ReadySegment::Scrambled(cs) => forall|j: int| 0 <= j < cs@.len() ==> shows_real(#[trigger] cs@[j], frame),
    }
}

/// Every scrambled character of every cell of `rows` shows as itself at `frame`.
pub open spec fn rows_real(rows: Seq<Vec<Vec<ReadySegment>>>, frame: int) -> bool {
    forall|i: int, ci: int, g: int|
        0 <= i < rows.len() && 0 <= ci < rows[i]@.len() && 0 <= g < rows[i]@[ci]@.len() ==> seg_real(
            #[trigger] rows[i]@[ci]@[g],
            frame,
        )
}

proof fn lemma_chars_real(cs: Seq<ScrambleChar>, frame: int, anim: bool, n: Seq<char>, k: int, fg: Seq<char>)
    requires
        forall|j: int| 0 <= j < cs.len() ==> shows_real(#[trigger] cs[j], frame),
    ensures
        render_chars(cs, frame, anim, n, k, fg) == render_chars(cs, frame, anim, seq![], k, fg),
        render_chars(cs, frame, anim, n, k, fg).2 == k,
    decreases cs.len(),
{
    if cs.len() > 0 {
        assert forall|j: int| 0 <= j < cs.drop_last().len() implies shows_real(#[trigger] cs.drop_last()[j], frame) by {
            assert(cs.drop_last()[j] == cs[j]);
        }
        lemma_chars_real(cs.drop_last(), frame, anim, n, k, fg);
        assert(shows_real(cs[cs.len() - 1], frame));
    }
}

proof fn lemma_segs_real(segs: Seq<ReadySegment>, frame: int, anim: bool, n: Seq<char>, k: int, fg: Seq<char>)
    requires
        forall|g: int| 0 <= g < segs.len() ==> seg_real(#[trigger] segs[g], frame),
    ensures
        render_segs(segs, frame, anim, n, k, fg) == render_segs(segs, frame, anim, seq![], k, fg),
        render_segs(segs, frame, anim, n, k, fg).2 == k,
    decreases segs.len(),
{
    if segs.len() > 0 {
        assert forall|g: int| 0 <= g < segs.drop_last().len() implies seg_real(#[trigger] segs.drop_last()[g], frame) by {
            assert(segs.drop_last()[g] == segs[g]);
        }
        lemma_segs_real(segs.drop_last(), frame, anim, n, k, fg);
        let r = render_segs(segs.drop_last(), frame, anim, n, k, fg);
        assert(seg_real(segs[segs.len() - 1], frame));
        match segs.last() {
            ReadySegment::Static(_) => {},
            ReadySegment::Scrambled(cs) => {
                lemma_chars_real(cs@, frame, r.1, n, r.2, fg);
            },
        }
    }
}

proof fn lemma_cols_real(
    cols: Seq<Vec<ReadySegment>>,
    pads: Seq<usize>,
    frame: int,
    n: Seq<char>,
    k: int,
    fg: Seq<char>,
)
    requires
        forall|c: int, g: int| 0 <= c < cols.len() && 0 <= g < cols[c]@.len() ==> seg_real(#[trigger] cols[c]@[g], frame),
    ensures
        render_cols(cols, pads, frame, n, k, fg) == render_cols(cols, pads, frame, seq![], k, fg),
        render_cols(cols, pads, frame, n, k, fg).1 == k,
    decreases cols.len(),
{
    if cols.len() > 0 {
        assert forall|c: int, g: int|
            0 <= c < cols.drop_last().len() && 0 <= g < cols.drop_last()[c]@.len() implies seg_real(
            #[trigger] cols.drop_last()[c]@[g],
            frame,
        ) by {
            assert(cols.drop_last()[c] == cols[c]);
        }
        lemma_cols_real(cols.drop_last(), pads, frame, n, k, fg);
        let last = cols.last();
        assert(last == cols[cols.len() - 1]);
        assert forall|g: int| 0 <= g < last@.len() implies seg_real(#[trigger] last@[g], frame) by {
            assert(seg_real(cols[cols.len() - 1]@[g], frame));
        }
        lemma_segs_real(last@, frame, false, n, k, fg);
    }
}

proof fn lemma_lines_real(
    rows: Seq<Vec<Vec<ReadySegment>>>,
    pads: Seq<Vec<usize>>,
    frame: int,
    n: Seq<char>,
    k: int,
    fg: Seq<char>,
)
    requires
        rows_real(rows, frame),
    ensures
        render_lines(rows, pads, frame, n, k, fg) == render_lines(rows, pads, frame, seq![], k, fg),
    decreases rows.len(),
{
    if rows.len() > 0 {
        let rest = rows.drop_last();
        assert forall|i: int, ci: int, g: int|
            0 <= i < rest.len() && 0 <= ci < rest[i]@.len() && 0 <= g < rest[i]@[ci]@.len() implies seg_real(
            #[trigger] rest[i]@[ci]@[g],
            frame,
        ) by {
            assert(rest[i] == rows[i]);
        }
        lemma_lines_real(rest, pads, frame, n, k, fg);
        let last = rows.last();
        assert(last == rows[rows.len() - 1]);
        assert forall|c: int, g: int| 0 <= c < last@.len() && 0 <= g < last@[c]@.len() implies seg_real(
            #[trigger] last@[c]@[g],
            frame,
        ) by {
            assert(seg_real(rows[rows.len() - 1]@[c]@[g], frame));
        }
        let r = render_lines(rest, pads, frame, n, k, fg);
        lemma_cols_real(last@, pads[rows.len() - 1]@, frame, n, r.1, fg);
    }
}

/// Ready rows whose lock frames go up to `total` have every character locked by `total`.
proof fn lemma_ready_rows_real(
    cells: Seq<Vec<Vec<crate::layout::Segment>>>,
    rows: Seq<Vec<Vec<ReadySegment>>>,
    total: int,
    order: crate::animator::RevealOrder,
    keep_codes: bool,
)
    requires
        ready_rows_match(cells, rows, total, order, keep_codes),
    ensures
        rows_real(rows, total),
{
    assert forall|i: int, ci: int, g: int|
        0 <= i < rows.len() && 0 <= ci < rows[i]@.len() && 0 <= g < rows[i]@[ci]@.len() implies seg_real(
        #[trigger] rows[i]@[ci]@[g],
        total,
    ) by {
        assert(ready_matches(cells[i]@[ci]@[g], rows[i]@[ci]@[g], total, order, keep_codes));
        match rows[i]@[ci]@[g] {
            ReadySegment::Static(_) => {},
            ReadySegment::Scrambled(cs) => {
                assert(scramble_matches(cs@, cells[i]@[ci]@[g]@.1, total, order, keep_codes));
                assert forall|j: int| 0 <= j < cs@.len() implies shows_real(#[trigger] cs@[j], total) by {
                    assert(1 <= cs@[j].lock_frame <= total);
                }
            },
        }
    }
}

/// The last frame of an animation draws no noise: by then every scrambled character has
/// locked in and shows as itself, so that frame is the same whatever noise was drawn.
pub proof fn lemma_last_frame_draws_no_noise(
    lay: ColumnLayout,
    config: AnimConfig,
    a: ColumnAnimation,
    fg: Seq<char>,
    keep_codes: bool,
)
    requires
        animation_of(lay, config, a, fg, keep_codes),
        lay.cells@.len() > 0,
    ensures
        frames_view(a.frames@).len() == a.total_frames + 1,
        frames_view(a.frames@).last() == column_frame(
            a.rows@,
            a.paddings@,
            a.total_frames as int,
            a.total_frames as int,
            seq![],
            fg,
        ),
{
    let total = a.total_frames as int;
    let lock = if total > 0 { total } else { 1 };
    let frames = frames_view(a.frames@);
    lemma_ready_rows_real(lay.cells@, a.rows@, lock, config.order, keep_codes);
    let noises = choose|noises: Seq<Seq<char>>|
        {
            &&& noises.len() == frames.len()
            &&& forall|f: int|
                0 <= f < frames.len() ==> {
                    &&& crate::animator::noise_in(#[trigger] noises[f], 0, noises[f].len() as int, config.charset)
                    &&& frames[f] == column_frame(a.rows@, a.paddings@, total, f, noises[f], fg)
                }
        };
    assert(frames[total] == column_frame(a.rows@, a.paddings@, total, total, noises[total], fg));
    lemma_lines_real(a.rows@, a.paddings@, lock, noises[total], 0, fg);
}

// ── What the last frame shows ───────────────────────────────────────────────

/// Characters, each preceded by its codes, one after another.
pub open spec fn unit_text(units: Seq<(char, Seq<char>)>) -> Seq<char>
    decreases units.len(),
{
    if units.len() == 0 {
        seq![]
    } else {
        unit_text(units.drop_last()) + units.last().1 + seq![units.last().0]
    }
}

/// A line's segments as they show once revealed: static text as it is; a scrambled region
/// as the characters it scrambles, each after its codes (see `scramble_units`).
pub open spec fn revealed_segs(segs: Seq<(bool, Seq<char>)>, keep_codes: bool) -> Seq<char>
    decreases segs.len(),
{
    if segs.len() == 0 {
        seq![]
    } else {
        let g = segs.last();
        revealed_segs(segs.drop_last(), keep_codes) + if g.0 {
            unit_text(scramble_units(g.1, keep_codes))
        } else {
            g.1
        }
    }
}

/// The first `n` cells of `row` of the columns `prep`, revealed: each cell's text with
/// cursor codes dropped and markers parsed, then its padding.
pub open spec fn revealed_cells(
    prep: Seq<Seq<Seq<char>>>,
    gap: int,
    marker: char,
    keep_codes: bool,
    row: int,
    n: int,
) -> Seq<char>
    decreases n,
{
    if n <= 0 {
        seq![]
    } else {
        revealed_cells(prep, gap, marker, keep_codes, row, n - 1) + revealed_segs(
            parse_markers_spec(keep_sgr_from(cell_text(prep, row, n - 1), 0), marker),
            keep_codes,
        ) + spaces(cell_padding(prep, gap, marker, row, n - 1) as nat)
    }
}

/// The first `m` rows of the columns `prep`, revealed, each moved to column 0 first and
/// ended by a newline.
pub open spec fn revealed_rows(prep: Seq<Seq<Seq<char>>>, gap: int, marker: char, keep_codes: bool, m: int) -> Seq<char>
    decreases m,
{
    if m <= 0 {
        seq![]
    } else {
        revealed_rows(prep, gap, marker, keep_codes, m - 1) + column_seq(0) + revealed_cells(
            prep,
            gap,
            marker,
            keep_codes,
            m - 1,
            prep.len() as int,
        ) + seq!['\n']
    }
}

/// The characters and codes of scrambled characters.
pub open spec fn chars_units(cs: Seq<ScrambleChar>) -> Seq<(char, Seq<char>)> {
    cs.map_values(|c: ScrambleChar| (c.actual, c.color_before@))
}

proof fn lemma_chars_revealed(cs: Seq<ScrambleChar>, frame: int, k: int, fg: Seq<char>)
    requires
        forall|j: int| 0 <= j < cs.len() ==> shows_real(#[trigger] cs[j], frame),
    ensures
        render_chars(cs, frame, false, seq![], k, fg).0 == unit_text(chars_units(cs)),
        !render_chars(cs, frame, false, seq![], k, fg).1,
    decreases cs.len(),
{
    if cs.len() > 0 {
        assert forall|j: int| 0 <= j < cs.drop_last().len() implies shows_real(#[trigger] cs.drop_last()[j], frame) by {
            assert(cs.drop_last()[j] == cs[j]);
        }
        lemma_chars_revealed(cs.drop_last(), frame, k, fg);
        assert(shows_real(cs[cs.len() - 1], frame));
        assert(chars_units(cs).drop_last() == chars_units(cs.drop_last()));
    }
}

proof fn lemma_segs_revealed(
    segs: Seq<ReadySegment>,
    cell: Seq<Segment>,
    frame: int,
    total: int,
    order: crate::animator::RevealOrder,
    keep_codes: bool,
    k: int,
    fg: Seq<char>,
)
    requires
        segs.len() == cell.len(),
        forall|g: int| 0 <= g < segs.len() ==> seg_real(#[trigger] segs[g], frame),
        forall|g: int| 0 <= g < segs.len() ==> ready_matches(cell[g], #[trigger] segs[g], total, order, keep_codes),
    ensures
        render_segs(segs, frame, false, seq![], k, fg).0 == revealed_segs(segments_view(cell), keep_codes),
        !render_segs(segs, frame, false, seq![], k, fg).1,
    decreases segs.len(),
{
    if segs.len() > 0 {
        let n = segs.len() - 1;
        assert forall|g: int| 0 <= g < segs.drop_last().len() implies seg_real(#[trigger] segs.drop_last()[g], frame) by {
            assert(segs.drop_last()[g] == segs[g]);
        }
        assert forall|g: int| 0 <= g < segs.drop_last().len() implies ready_matches(
            cell.drop_last()[g],
            #[trigger] segs.drop_last()[g],
            total,
            order,
            keep_codes,
        ) by {
            assert(segs.drop_last()[g] == segs[g]);
            assert(cell.drop_last()[g] == cell[g]);
        }
        lemma_segs_revealed(segs.drop_last(), cell.drop_last(), frame, total, order, keep_codes, k, fg);
        assert(segments_view(cell).drop_last() == segments_view(cell.drop_last()));
        assert(segments_view(cell).last() == cell[n]@);
        assert(seg_real(segs[n], frame));
        assert(ready_matches(cell[n], segs[n], total, order, keep_codes));
        let r = render_segs(segs.drop_last(), frame, false, seq![], k, fg);
        match segs.last() {
            ReadySegment::Static(t) => {},
            ReadySegment::Scrambled(cs) => {
                lemma_chars_revealed(cs@, frame, r.2, fg);
                assert(chars_units(cs@) == scramble_units(cell[n]@.1, keep_codes));
            },
        }
    }
}

proof fn lemma_cells_revealed(
    lay: ColumnLayout,
    prep: Seq<Seq<Seq<char>>>,
    gap: int,
    marker: char,
    rows: Seq<Vec<Vec<ReadySegment>>>,
    total: int,
    order: crate::animator::RevealOrder,
    keep_codes: bool,
    i: int,
    n: int,
    k: int,
    fg: Seq<char>,
)
    requires
        layout_of(lay, prep, gap, marker, keep_codes),
        ready_rows_match(lay.cells@, rows, total, order, keep_codes),
        rows_real(rows, total),
        0 <= i < rows.len(),
        0 <= n <= prep.len(),
    ensures
        render_cols(rows[i]@.take(n), lay.paddings@[i]@, total, seq![], k, fg).0 == revealed_cells(
            prep,
            gap,
            marker,
            keep_codes,
            i,
            n,
        ),
    decreases n,
{
    if n > 0 {
        let row = rows[i]@;
        lemma_cells_revealed(lay, prep, gap, marker, rows, total, order, keep_codes, i, n - 1, k, fg);
        assert(row.take(n).drop_last() == row.take(n - 1));
        assert(row.take(n).last() == row[n - 1]);
        let c = n - 1;
        let segs = row[c]@;
        let cell = lay.cells@[i]@[c]@;
        assert(segs.len() == cell.len());
        assert forall|g: int| 0 <= g < segs.len() implies seg_real(#[trigger] segs[g], total) by {
            assert(seg_real(rows[i]@[c]@[g], total));
        }
        assert forall|g: int| 0 <= g < segs.len() implies ready_matches(cell[g], #[trigger] segs[g], total, order, keep_codes) by {
            assert(ready_matches(lay.cells@[i]@[c]@[g], rows[i]@[c]@[g], total, order, keep_codes));
        }
        let r = render_cols(row.take(n - 1), lay.paddings@[i]@, total, seq![], k, fg);
        lemma_segs_revealed(segs, cell, total, total, order, keep_codes, r.1, fg);
        assert(lay.paddings@[i]@[c] == cell_padding(prep, gap, marker, i, c));
    }
}

proof fn lemma_rows_revealed(
    lay: ColumnLayout,
    prep: Seq<Seq<Seq<char>>>,
    gap: int,
    marker: char,
    rows: Seq<Vec<Vec<ReadySegment>>>,
    total: int,
    order: crate::animator::RevealOrder,
    keep_codes: bool,
    m: int,
    fg: Seq<char>,
)
    requires
        layout_of(lay, prep, gap, marker, keep_codes),
        ready_rows_match(lay.cells@, rows, total, order, keep_codes),
        rows_real(rows, total),
        0 <= m <= rows.len(),
    ensures
        render_lines(rows.take(m), lay.paddings@, total, seq![], 0, fg).0 == revealed_rows(prep, gap, marker, keep_codes, m),
    decreases m,
{
    if m > 0 {
        lemma_rows_revealed(lay, prep, gap, marker, rows, total, order, keep_codes, m - 1, fg);
        assert(rows.take(m).drop_last() == rows.take(m - 1));
        assert(rows.take(m).last() == rows[m - 1]);
        let i = m - 1;
        assert(rows[i]@.len() == prep.len());
        assert(rows[i]@.take(prep.len() as int) == rows[i]@);
        let r = render_lines(rows.take(m - 1), lay.paddings@, total, seq![], 0, fg);
        lemma_cells_revealed(lay, prep, gap, marker, rows, total, order, keep_codes, i, prep.len() as int, r.1, fg);
    }
}

/// The last frame shows the columns revealed: after moving up over the rows (and, when
/// nothing scrambles, hiding the cursor and reserving the lines first), every row with
/// each cell's text as it is once revealed, padded; then the cursor is shown again.
pub proof fn lemma_last_frame_reveals(
    lay: ColumnLayout,
    prep: Seq<Seq<Seq<char>>>,
    gap: int,
    marker: char,
    config: AnimConfig,
    a: ColumnAnimation,
    fg: Seq<char>,
    keep_codes: bool,
)
    requires
        layout_of(lay, prep, gap, marker, keep_codes),
        animation_of(lay, config, a, fg, keep_codes),
        lay.cells@.len() > 0,
    ensures
        frames_view(a.frames@).last() == (if a.total_frames == 0 {
            hide_seq() + newlines(a.rows@.len()) + up_seq((a.rows@.len() as u16) as nat)
        } else {
            up_seq((a.rows@.len() as u16) as nat)
        }) + revealed_rows(prep, gap, marker, keep_codes, layout_height(prep) as int) + show_seq(),
{
    let total = a.total_frames as int;
    let lock = if total > 0 { total } else { 1 };
    lemma_last_frame_draws_no_noise(lay, config, a, fg, keep_codes);
    lemma_ready_rows_real(lay.cells@, a.rows@, lock, config.order, keep_codes);
    assert(a.rows@.take(a.rows@.len() as int) == a.rows@);
    lemma_rows_revealed(lay, prep, gap, marker, a.rows@, lock, config.order, keep_codes, a.rows@.len() as int, fg);
}

/// The first `n` cells of `row` of `prep` as plain text: each cell's text with cursor
/// codes and marker characters dropped, then its padding.
pub open spec fn plain_cells(prep: Seq<Seq<Seq<char>>>, gap: int, marker: char, row: int, n: int) -> Seq<char>
    decreases n,
{
    if n <= 0 {
        seq![]
    } else {
        plain_cells(prep, gap, marker, row, n - 1) + unmarked(keep_sgr_from(cell_text(prep, row, n - 1), 0), marker)
            + spaces(cell_padding(prep, gap, marker, row, n - 1) as nat)
    }
}

/// The first `m` rows of `prep` as plain text, each moved to column 0 first and ended by
/// a newline.
pub open spec fn plain_rows(prep: Seq<Seq<Seq<char>>>, gap: int, marker: char, m: int) -> Seq<char>
    decreases m,
{
    if m <= 0 {
        seq![]
    } else {
        plain_rows(prep, gap, marker, m - 1) + column_seq(0) + plain_cells(prep, gap, marker, m - 1, prep.len() as int)
            + seq!['\n']
    }
}

proof fn lemma_bare_units_text(t: Seq<char>)
    ensures
        unit_text(scramble_units(t, false)) == t,
    decreases t.len(),
{
    if t.len() > 0 {
        lemma_bare_units_text(t.drop_last());
        assert(scramble_units(t, false).drop_last() == scramble_units(t.drop_last(), false));
    }
}

proof fn lemma_revealed_bare(segs: Seq<(bool, Seq<char>)>)
    ensures
        revealed_segs(segs, false) == segment_text(segs),
    decreases segs.len(),
{
    let texts = segs.map_values(|g: (bool, Seq<char>)| g.1);
    if segs.len() == 0 {
        assert(texts == Seq::<Seq<char>>::empty());
    } else {
        lemma_revealed_bare(segs.drop_last());
        let g = segs.last();
        if g.0 {
            lemma_bare_units_text(g.1);
        }
        assert(texts == segs.drop_last().map_values(|g: (bool, Seq<char>)| g.1).push(g.1));
        segs.drop_last().map_values(|g: (bool, Seq<char>)| g.1).lemma_flatten_push(g.1);
    }
}

proof fn lemma_plain_cells(prep: Seq<Seq<Seq<char>>>, gap: int, marker: char, row: int, n: int)
    ensures
        revealed_cells(prep, gap, marker, false, row, n) == plain_cells(prep, gap, marker, row, n),
    decreases n,
{
    if n > 0 {
        lemma_plain_cells(prep, gap, marker, row, n - 1);
        let t = keep_sgr_from(cell_text(prep, row, n - 1), 0);
        lemma_revealed_bare(parse_markers_spec(t, marker));
        lemma_segments_rebuild_line(t, marker);
    }
}

proof fn lemma_plain_rows(prep: Seq<Seq<Seq<char>>>, gap: int, marker: char, m: int)
    ensures
        revealed_rows(prep, gap, marker, false, m) == plain_rows(prep, gap, marker, m),
    decreases m,
{
    if m > 0 {
        lemma_plain_rows(prep, gap, marker, m - 1);
        lemma_plain_cells(prep, gap, marker, m - 1, prep.len() as int);
    }
}

/// The side-by-side animation ends on the text itself: its last frame shows every row as
/// the left line (cursor codes and markers dropped), its padding, then the right line.
pub proof fn lemma_side_by_side_ends_on_text(
    left: Seq<Seq<char>>,
    right: Seq<Seq<char>>,
    gap: int,
    marker: char,
    config: AnimConfig,
    lay: ColumnLayout,
    a: ColumnAnimation,
    fg: Seq<char>,
)
    requires
        side_animation_ok(left, right, gap, marker, config, lay, a, fg),
        lay.cells@.len() > 0,
    ensures
        ({
            let prep = trimmed_columns(side_columns(left, right), marker);
            frames_view(a.frames@).last() == (if a.total_frames == 0 {
                hide_seq() + newlines(a.rows@.len()) + up_seq((a.rows@.len() as u16) as nat)
            } else {
                up_seq((a.rows@.len() as u16) as nat)
            }) + plain_rows(prep, gap, marker, layout_height(prep) as int) + show_seq()
        }),
{
    let prep = trimmed_columns(side_columns(left, right), marker);
    lemma_last_frame_reveals(lay, prep, gap, marker, config, a, fg, false);
    lemma_plain_rows(prep, gap, marker, layout_height(prep) as int);
}

/// The last thing the scan of `s` from `i` meets is a visible character, not a control
/// sequence (and there is something to meet).
pub open spec fn ends_visible_from(s: Seq<char>, i: int) -> bool
    decreases s.len() - i,
{
    if i < 0 || i >= s.len() {
        false
    } else if csi_at(s, i) {
        proof {
            lemma_csi_end_bounds(s, i + 2);
        }
        ends_visible_from(s, csi_end(s, i + 2))
    } else if i == s.len() - 1 {
        true
    } else {
        ends_visible_from(s, i + 1)
    }
}

/// Every scrambled region of every cell of `prep` ends with a visible character.
pub open spec fn regions_end_visible(prep: Seq<Seq<Seq<char>>>, marker: char) -> bool {
    forall|i: int, ci: int, g: int|
        0 <= i < layout_height(prep) && 0 <= ci < prep.len() && 0 <= g < cell_segments(prep, i, ci, marker).len()
            && (#[trigger] cell_segments(prep, i, ci, marker)[g]).0 ==> ends_visible_from(
            cell_segments(prep, i, ci, marker)[g].1,
            0,
        )
}

proof fn lemma_unit_text_concat(a: Seq<(char, Seq<char>)>, b: Seq<(char, Seq<char>)>)
    ensures
        unit_text(a + b) == unit_text(a) + unit_text(b),
    decreases b.len(),
{
    if b.len() == 0 {
        assert(a + b == a);
    } else {
        lemma_unit_text_concat(a, b.drop_last());
        assert((a + b).drop_last() == a + b.drop_last());
        assert((a + b).last() == b.last());
    }
}

proof fn lemma_units_end_visible(s: Seq<char>, i: int, pending: Seq<char>)
    requires
        0 <= i,
        ends_visible_from(s, i),
    ensures
        unit_text(context_from(s, i, pending)) == pending + s.subrange(i, s.len() as int),
    decreases s.len() - i,
{
    if csi_at(s, i) {
        lemma_csi_end_bounds(s, i + 2);
        let e = csi_end(s, i + 2);
        lemma_units_end_visible(s, e, pending + s.subrange(i, e));
        assert(pending + s.subrange(i, e) + s.subrange(e, s.len() as int) == pending + s.subrange(i, s.len() as int));
    } else {
        let head: Seq<(char, Seq<char>)> = seq![(s[i], pending)];
        let rest = context_from(s, i + 1, seq![]);
        assert(context_from(s, i, pending) == head + rest);
        lemma_unit_text_concat(head, rest);
        assert(unit_text(head) == pending + seq![s[i]]) by {
            assert(head.drop_last() == Seq::<(char, Seq<char>)>::empty());
            assert(unit_text(Seq::<(char, Seq<char>)>::empty()) == Seq::<char>::empty());
            assert(head.last() == (s[i], pending));
            assert(Seq::<char>::empty() + pending == pending);
        }
        if i == s.len() - 1 {
            assert(rest == Seq::<(char, Seq<char>)>::empty());
            assert(s.subrange(i, s.len() as int) == seq![s[i]]);
        } else {
            lemma_units_end_visible(s, i + 1, seq![]);
            assert(seq![s[i]] + s.subrange(i + 1, s.len() as int) == s.subrange(i, s.len() as int));
        }
    }
}

proof fn lemma_revealed_kept(segs: Seq<(bool, Seq<char>)>)
    requires
        forall|g: int| 0 <= g < segs.len() && (#[trigger] segs[g]).0 ==> ends_visible_from(segs[g].1, 0),
    ensures
        revealed_segs(segs, true) == segment_text(segs),
    decreases segs.len(),
{
    let texts = segs.map_values(|g: (bool, Seq<char>)| g.1);
    if segs.len() == 0 {
        assert(texts == Seq::<Seq<char>>::empty());
    } else {
        let rest = segs.drop_last();
        assert forall|g: int| 0 <= g < rest.len() && (#[trigger] rest[g]).0 implies ends_visible_from(rest[g].1, 0) by {
            assert(rest[g] == segs[g]);
        }
        lemma_revealed_kept(rest);
        let g = segs.last();
        if g.0 {
            assert(segs[segs.len() - 1] == g);
            lemma_units_end_visible(g.1, 0, seq![]);
            assert(g.1.subrange(0, g.1.len() as int) == g.1);
        }
        assert(texts == rest.map_values(|g: (bool, Seq<char>)| g.1).push(g.1));
        rest.map_values(|g: (bool, Seq<char>)| g.1).lemma_flatten_push(g.1);
    }
}

proof fn lemma_plain_cells_kept(prep: Seq<Seq<Seq<char>>>, gap: int, marker: char, row: int, n: int)
    requires
        regions_end_visible(prep, marker),
        0 <= row < layout_height(prep),
        n <= prep.len(),
    ensures
        revealed_cells(prep, gap, marker, true, row, n) == plain_cells(prep, gap, marker, row, n),
    decreases n,
{
    if n > 0 {
        lemma_plain_cells_kept(prep, gap, marker, row, n - 1);
        let t = keep_sgr_from(cell_text(prep, row, n - 1), 0);
        let segs = parse_markers_spec(t, marker);
        assert forall|g: int| 0 <= g < segs.len() && (#[trigger] segs[g]).0 implies ends_visible_from(segs[g].1, 0) by {
            assert(cell_segments(prep, row, n - 1, marker)[g] == segs[g]);
        }
        lemma_revealed_kept(segs);
        lemma_segments_rebuild_line(t, marker);
    }
}

proof fn lemma_plain_rows_kept(prep: Seq<Seq<Seq<char>>>, gap: int, marker: char, m: int)
    requires
        regions_end_visible(prep, marker),
        m <= layout_height(prep),
    ensures
        revealed_rows(prep, gap, marker, true, m) == plain_rows(prep, gap, marker, m),
    decreases m,
{
    if m > 0 {
        lemma_plain_rows_kept(prep, gap, marker, m - 1);
        lemma_plain_cells_kept(prep, gap, marker, m - 1, prep.len() as int);
    }
}

/// The column animation ends on the text itself: its last frame shows every row as each
/// cell's text (cursor codes and markers dropped), padded. This holds when every scrambled
/// region ends with a visible character; colour codes after a region's last visible
/// character are not shown once it is revealed.
pub proof fn lemma_columns_end_on_text(
    cols: Seq<Seq<Seq<char>>>,
    gap: int,
    marker: char,
    config: AnimConfig,
    width: Option<u16>,
    lay: ColumnLayout,
    a: ColumnAnimation,
    fg: Seq<char>,
)
    requires
        column_animation_ok(cols, gap, marker, config, width, lay, a, fg),
        lay.cells@.len() > 0,
        regions_end_visible(prepared_columns(cols, config.valign, width, gap, marker), marker),
    ensures
        ({
            let prep = prepared_columns(cols, config.valign, width, gap, marker);
            frames_view(a.frames@).last() == (if a.total_frames == 0 {
                hide_seq() + newlines(a.rows@.len()) + up_seq((a.rows@.len() as u16) as nat)
            } else {
                up_seq((a.rows@.len() as u16) as nat)
            }) + plain_rows(prep, gap, marker, layout_height(prep) as int) + show_seq()
        }),
{
    let prep = prepared_columns(cols, config.valign, width, gap, marker);
    lemma_last_frame_reveals(lay, prep, gap, marker, config, a, fg, true);
    lemma_plain_rows_kept(prep, gap, marker, layout_height(prep) as int);
}

// ── Single-string animation ─────────────────────────────────────────────────

/// In the animation of a single string, a position that has locked stays locked: once a
/// frame shows it as itself, every later frame does, and so does the closing frame.
pub proof fn lemma_locked_stays_locked(
    chars: Seq<char>,
    config: AnimConfig,
    schedule: Seq<usize>,
    scrambles: Seq<usize>,
    fg: Seq<char>,
    frames: Seq<Seq<char>>,
    p1: int,
    r1: int,
    p2: int,
    r2: int,
    j: int,
)
    requires
        text_frames_ok(chars, config, schedule, scrambles, fg, frames),
        0 <= p1 < schedule.len(),
        0 <= r1 < scrambles[p1],
        0 <= p2 < schedule.len(),
        0 <= r2 < scrambles[p2],
        1 + prefix_sum(scrambles, p1) + r1 <= 1 + prefix_sum(scrambles, p2) + r2,
        0 <= j < chars.len(),
        locked_mask(schedule.take(p1), chars.len())[j],
    ensures
        ({
            let lead = column_seq(0) + fg;
            &&& frames[1 + prefix_sum(scrambles, p2) + r2][lead.len() + j] == chars[j]
            &&& frames.last()[lead.len() + j] == chars[j]
        }),
{
    let lead = column_seq(0) + fg;
    let n = chars.len();
    if p1 > p2 {
        lemma_prefix_sum_mono(scrambles, p2 + 1, p1);
        assert(prefix_sum(scrambles, p2 + 1) == prefix_sum(scrambles, p2) + scrambles[p2]);
        assert(false);
    }
    assert(schedule.take(p1).contains(j as usize));
    let w = choose|w: int| 0 <= w < schedule.take(p1).len() && schedule.take(p1)[w] == j as usize;
    assert(schedule.take(p2)[w] == j as usize);
    assert(locked_mask(schedule.take(p2), n)[j]);
    let f2 = 1 + prefix_sum(scrambles, p2) + r2;
    assert(frame_shows(frames[f2], lead, chars, locked_mask(schedule.take(p2), n), config.charset));
    let row = frames[f2].subrange(lead.len() as int, frames[f2].len() as int);
    assert(row[j] == chars[j]);
    assert(frames.last() == lead + chars + crate::ansi::reset_seq() + show_seq() + seq!['\n']);
}

/// Fitted to a terminal `width` columns wide, no line of a column is wider than the room
/// left for that column.
pub proof fn lemma_fitted_lines_fit(cols: Seq<Seq<Seq<char>>>, width: u16, gap: int, marker: char, ci: int, k: int)
    requires
        0 <= ci < cols.len(),
        0 <= k < cols[ci].len(),
    ensures
        visual_width_spec(fitted_columns(cols, Some(width), gap, marker)[ci][k], marker) <= room_for(
            cols,
            ci,
            width as int,
            gap,
            marker,
        ),
{
    let a = room_for(cols, ci, width as int, gap, marker);
    let line = cols[ci][k];
    if visual_width_spec(line, marker) > a {
        assert(a >= 0);
        let t = truncate_from(line, 0, 0, a);
        assert(fitted_columns(cols, Some(width), gap, marker)[ci][k] == t);
        lemma_truncate_keeps_visible_prefix(line, a as nat);
        let v = strip_ansi_spec(t);
        assert(v.len() <= a);
        v.lemma_filter_len(|c: char| c != marker);
    }
}

// ── A terminal wide enough ──────────────────────────────────────────────────

/// Terminal columns taken by the first `c` columns of `cols` and a `gap` after each.
pub open spec fn span_before(cols: Seq<Seq<Seq<char>>>, c: int, gap: int, marker: char) -> int
    decreases c,
{
    if c <= 0 {
        0
    } else {
        span_before(cols, c - 1, gap, marker) + max_width_of(cols[c - 1], marker) + gap
    }
}

/// Terminal columns taken by all of `cols` side by side: the widest line of each column,
/// and `gap` between two columns.
pub open spec fn columns_span(cols: Seq<Seq<Seq<char>>>, gap: int, marker: char) -> int {
    if cols.len() == 0 {
        0
    } else {
        span_before(cols, cols.len() - 1, gap, marker) + max_width_of(cols.last(), marker)
    }
}

proof fn lemma_empty_width(marker: char)
    ensures
        visual_width_spec(Seq::<char>::empty(), marker) == 0,
{
    assert(strip_from(Seq::<char>::empty(), 0) == Seq::<char>::empty());
    assert(Seq::<char>::empty().filter(|c: char| c != marker) == Seq::<char>::empty()) by {
        reveal(Seq::filter);
    }
}

proof fn lemma_trimmed_width(col: Seq<Seq<char>>, marker: char)
    ensures
        max_width_of(col.take(content_end(col, marker) as int), marker) == max_width_of(col, marker),
    decreases col.len(),
{
    if col.len() > 0 {
        if visual_width_spec(col.last(), marker) > 0 {
            assert(col.take(col.len() as int) == col);
        } else {
            let rest = col.drop_last();
            lemma_trimmed_width(rest, marker);
            lemma_trim_keeps_content(rest, marker);
            let ce = content_end(rest, marker) as int;
            assert(col.take(ce) == rest.take(ce));
        }
    } else {
        assert(col.take(0) == col);
    }
}

/// Lines of width 0 in front of a column leave its widest line as it is.
proof fn lemma_blank_prefix_width(x: Seq<Seq<char>>, col: Seq<Seq<char>>, marker: char)
    requires
        forall|k: int| 0 <= k < x.len() ==> visual_width_spec(#[trigger] x[k], marker) == 0,
    ensures
        max_width_of(x + col, marker) == max_width_of(col, marker),
    decreases x.len() + col.len(),
{
    if col.len() > 0 {
        lemma_blank_prefix_width(x, col.drop_last(), marker);
        assert((x + col).drop_last() == x + col.drop_last());
        assert((x + col).last() == col.last());
    } else if x.len() > 0 {
        assert(x + col == x);
        lemma_blank_prefix_width(x.drop_last(), col, marker);
        assert(x.drop_last() + col == x.drop_last());
        assert(x.last() == x[x.len() - 1]);
    } else {
        assert(x + col == col);
    }
}

proof fn lemma_aligned_widths(cols: Seq<Seq<Seq<char>>>, valign: VAlign, marker: char, ci: int)
    requires
        0 <= ci < cols.len(),
    ensures
        aligned_columns(trimmed_columns(cols, marker), valign).len() == cols.len(),
        max_width_of(aligned_columns(trimmed_columns(cols, marker), valign)[ci], marker) == max_width_of(
            cols[ci],
            marker,
        ),
{
    let t = trimmed_columns(cols, marker);
    lemma_trimmed_width(cols[ci], marker);
    match valign {
        VAlign::Top => {},
        VAlign::Center => {
            let p = ((layout_height(t) - t[ci].len()) / 2) as nat;
            let x = Seq::new(p, |i: int| Seq::<char>::empty());
            assert(centered_columns(t)[ci] == x + t[ci]);
            assert forall|k: int| 0 <= k < x.len() implies visual_width_spec(#[trigger] x[k], marker) == 0 by {
                lemma_empty_width(marker);
            }
            lemma_blank_prefix_width(x, t[ci], marker);
        },
    }
}

proof fn lemma_span_same(a: Seq<Seq<Seq<char>>>, b: Seq<Seq<Seq<char>>>, c: int, gap: int, marker: char)
    requires
        0 <= c <= a.len(),
        a.len() == b.len(),
        forall|k: int| 0 <= k < a.len() ==> max_width_of(#[trigger] a[k], marker) == max_width_of(b[k], marker),
    ensures
        span_before(a, c, gap, marker) == span_before(b, c, gap, marker),
    decreases c,
{
    if c > 0 {
        lemma_span_same(a, b, c - 1, gap, marker);
        assert(max_width_of(a[c - 1], marker) == max_width_of(b[c - 1], marker));
    }
}

proof fn lemma_span_mono(cols: Seq<Seq<Seq<char>>>, c: int, d: int, gap: int, marker: char)
    requires
        0 <= c <= d,
        0 <= gap,
    ensures
        span_before(cols, c, gap, marker) <= span_before(cols, d, gap, marker),
    decreases d,
{
    if c < d {
        lemma_span_mono(cols, c, d - 1, gap, marker);
    }
}

/// Up to the last column, the room used before a column is its span, when everything fits.
proof fn lemma_used_is_span(cols: Seq<Seq<Seq<char>>>, c: int, width: int, gap: int, marker: char)
    requires
        0 <= c < cols.len(),
        0 <= gap,
        width <= u16::MAX,
        columns_span(cols, gap, marker) <= width,
    ensures
        used_before(cols, c, width, gap, marker) == span_before(cols, c, gap, marker),
        span_before(cols, c, gap, marker) + max_width_of(cols[c], marker) <= width,
    decreases c,
{
    let n = cols.len() as int;
    if c < n - 1 {
        lemma_span_mono(cols, c + 1, n - 1, gap, marker);
    } else {
        assert(cols.last() == cols[c]);
    }
    if c > 0 {
        lemma_used_is_span(cols, c - 1, width, gap, marker);
        lemma_span_mono(cols, c, n - 1, gap, marker);
    }
}

/// On a terminal at least as wide as the columns side by side (their widest lines and the
/// gaps between them), fitting to the terminal changes nothing: the columns are laid out as
/// when the width cannot be told.
pub proof fn lemma_wide_terminal_fits_all(cols: Seq<Seq<Seq<char>>>, valign: VAlign, width: u16, gap: int, marker: char)
    requires
        0 <= gap,
        columns_span(cols, gap, marker) <= width,
    ensures
        prepared_columns(cols, valign, Some(width), gap, marker) == prepared_columns(cols, valign, None, gap, marker),
{
    let al = aligned_columns(trimmed_columns(cols, marker), valign);
    let n = cols.len() as int;
    if n > 0 {
        lemma_aligned_widths(cols, valign, marker, 0);
        assert forall|k: int| 0 <= k < al.len() implies max_width_of(#[trigger] al[k], marker) == max_width_of(
            cols[k],
            marker,
        ) by {
            lemma_aligned_widths(cols, valign, marker, k);
        }
        lemma_span_same(al, cols, n - 1, gap, marker);
        assert(al.last() == al[n - 1]);
        assert(cols.last() == cols[n - 1]);
        assert(columns_span(al, gap, marker) == columns_span(cols, gap, marker));
        let f = fitted_columns(al, Some(width), gap, marker);
        assert forall|ci: int| 0 <= ci < al.len() implies #[trigger] f[ci] == al[ci] by {
            lemma_used_is_span(al, ci, width as int, gap, marker);
            assert forall|k: int| 0 <= k < al[ci].len() implies #[trigger] f[ci][k] == al[ci][k] by {
                lemma_max_width_bounds(al[ci], marker, k);
            }
            assert(f[ci] =~= al[ci]);
        }
        assert(f =~= al);
    } else {
        let t = trimmed_columns(cols, marker);
        assert(t.len() == 0);
        assert(al.len() == 0);
        assert(fitted_columns(al, Some(width), gap, marker) =~= al);
    }
}

/// On a terminal wide enough for the columns side by side, an animation of the columns is
/// one for that terminal exactly when it is one for a terminal whose width cannot be told:
/// the same layout, the same ready rows, the same frames.
pub proof fn lemma_wide_terminal_same_animation(
    cols: Seq<Seq<Seq<char>>>,
    gap: int,
    marker: char,
    config: AnimConfig,
    width: u16,
    lay: ColumnLayout,
    a: ColumnAnimation,
    fg: Seq<char>,
)
    requires
        0 <= gap,
        columns_span(cols, gap, marker) <= width,
    ensures
        column_animation_ok(cols, gap, marker, config, Some(width), lay, a, fg) == column_animation_ok(
            cols,
            gap,
            marker,
            config,
            None,
            lay,
            a,
            fg,
        ),
{
    lemma_wide_terminal_fits_all(cols, config.valign, width, gap, marker);
}

// ── Vertical centring ───────────────────────────────────────────────────────

proof fn lemma_height_is_tallest(cols: Seq<Seq<Seq<char>>>, tallest: int)
    requires
        forall|k: int| 0 <= k < cols.len() ==> (#[trigger] cols[k]).len() <= tallest,
        exists|k: int| 0 <= k < cols.len() && (#[trigger] cols[k]).len() == tallest,
    ensures
        layout_height(cols) == tallest,
    decreases cols.len(),
{
    let rest = cols.drop_last();
    assert(cols.len() > 0);
    if cols.last().len() == tallest {
        assert forall|k: int| 0 <= k < rest.len() implies (#[trigger] rest[k]).len() <= tallest by {
            assert(rest[k] == cols[k]);
        }
        lemma_rest_height_below(rest, tallest);
    } else {
        let k = choose|k: int| 0 <= k < cols.len() && (#[trigger] cols[k]).len() == tallest;
        assert(k < cols.len() - 1);
        assert(rest[k] == cols[k]);
        assert forall|j: int| 0 <= j < rest.len() implies (#[trigger] rest[j]).len() <= tallest by {
            assert(rest[j] == cols[j]);
        }
        lemma_height_is_tallest(rest, tallest);
        assert(cols.last() == cols[cols.len() - 1]);
    }
}

proof fn lemma_rest_height_below(cols: Seq<Seq<Seq<char>>>, tallest: int)
    requires
        0 <= tallest,
        forall|k: int| 0 <= k < cols.len() ==> (#[trigger] cols[k]).len() <= tallest,
    ensures
        layout_height(cols) <= tallest,
    decreases cols.len(),
{
    if cols.len() > 0 {
        let rest = cols.drop_last();
        assert forall|k: int| 0 <= k < rest.len() implies (#[trigger] rest[k]).len() <= tallest by {
            assert(rest[k] == cols[k]);
        }
        lemma_rest_height_below(rest, tallest);
        assert(cols.last() == cols[cols.len() - 1]);
    }
}

/// Centred vertically, every column is preceded by half (rounded down) of the lines it
/// lacks against the tallest column, whichever column that is, and then holds its own
/// lines in order; aligned to the top, the columns stay as they are.
pub proof fn lemma_centre_against_tallest(cols: Seq<Seq<Seq<char>>>, tallest: int, ci: int)
    requires
        0 <= ci < cols.len(),
        forall|k: int| 0 <= k < cols.len() ==> (#[trigger] cols[k]).len() <= tallest,
        exists|k: int| 0 <= k < cols.len() && (#[trigger] cols[k]).len() == tallest,
    ensures
        ({
            let c = aligned_columns(cols, VAlign::Center);
            let above = (tallest - cols[ci].len()) / 2;
            &&& c.len() == cols.len()
            &&& c[ci].len() == above + cols[ci].len()
            &&& forall|j: int| 0 <= j < above ==> #[trigger] c[ci][j] == Seq::<char>::empty()
            &&& forall|j: int| 0 <= j < cols[ci].len() ==> #[trigger] c[ci][above + j] == cols[ci][j]
        }),
        aligned_columns(cols, VAlign::Top) == cols,
{
    lemma_height_is_tallest(cols, tallest);
    let c = aligned_columns(cols, VAlign::Center);
    let above = (tallest - cols[ci].len()) / 2;
    let blank = Seq::new(above as nat, |i: int| Seq::<char>::empty());
    assert(c[ci] == blank + cols[ci]);
    assert forall|j: int| 0 <= j < cols[ci].len() implies #[trigger] c[ci][above + j] == cols[ci][j] by {
        assert((blank + cols[ci])[above + j] == cols[ci][j]);
    }
}

// ── White space in scrambled regions ────────────────────────────────────────

/// Characters of `cs` that are not white space and have not locked by `frame`.
pub open spec fn pending_count(cs: Seq<ScrambleChar>, frame: int) -> nat
    decreases cs.len(),
{
    if cs.len() == 0 {
        0
    } else {
        pending_count(cs.drop_last(), frame) + if cs.last().lock_frame > frame && !is_white_space(cs.last().actual) {
            1nat
        } else {
            0nat
        }
    }
}

/// Drawing scrambled characters at a frame takes one noise character for each character
/// that is not white space and has not locked yet, and none for any other: white space
/// is never drawn as noise.
pub proof fn lemma_noise_only_for_pending(cs: Seq<ScrambleChar>, frame: int, anim: bool, noise: Seq<char>, k: int, fg: Seq<char>)
    ensures
        render_chars(cs, frame, anim, noise, k, fg).2 == k + pending_count(cs, frame),
    decreases cs.len(),
{
    if cs.len() > 0 {
        lemma_noise_only_for_pending(cs.drop_last(), frame, anim, noise, k, fg);
    }
}

/// A white-space character of a scrambled region shows as itself in every frame: after
/// what comes before it (and the end of the noise colour, if it was on), its own codes and
/// itself, taking no noise.
pub proof fn lemma_white_space_shows_itself(
    cs: Seq<ScrambleChar>,
    sc: ScrambleChar,
    frame: int,
    anim: bool,
    noise: Seq<char>,
    k: int,
    fg: Seq<char>,
)
    requires
        is_white_space(sc.actual),
    ensures
        ({
            let before = render_chars(cs, frame, anim, noise, k, fg);
            render_chars(cs.push(sc), frame, anim, noise, k, fg) == (
                before.0 + (if before.1 { crate::ansi::reset_seq() } else { seq![] }) + sc.color_before@ + seq![sc.actual],
                false,
                before.2,
            )
        }),
{
    assert(cs.push(sc).drop_last() == cs);
    assert(cs.push(sc).last() == sc);
}

// ── Noise colours ───────────────────────────────────────────────────────────

/// The terminal's basic colours in their standard order (ECMA-48 codes 30 to 36, palette
/// entries 0 to 6): black, red, green, yellow, blue, magenta, cyan.
pub open spec fn basic_colour_order() -> Seq<AnsiColor> {
    seq![
        AnsiColor::Black,
        AnsiColor::Red,
        AnsiColor::Green,
        AnsiColor::Yellow,
        AnsiColor::Blue,
        AnsiColor::Magenta,
        AnsiColor::Cyan,
    ]
}

/// The noise colours are the terminal's basic colours: the `i`-th of the standard order
/// is palette entry `i`, and white is the bright white of entry 15 (8 + 7); `Match` names
/// no colour of its own. Distinct options give distinct colours.
pub proof fn lemma_noise_colours_in_palette_order()
    ensures
        forall|i: int| 0 <= i < 7 ==> palette_index(#[trigger] basic_colour_order()[i]) == Some(i as u8),
        palette_index(AnsiColor::White) == Some((8 + 7) as u8),
        palette_index(AnsiColor::Match) is None,
        forall|a: AnsiColor, b: AnsiColor| a != b ==> palette_index(a) != palette_index(b),
{
    let order = basic_colour_order();
    assert forall|i: int| 0 <= i < 7 implies palette_index(#[trigger] order[i]) == Some(i as u8) by {
        if i == 0 {} else if i == 1 {} else if i == 2 {} else if i == 3 {} else if i == 4 {} else if i == 5 {} else {}
    }
}

// ── Choosing the noise set ──────────────────────────────────────────────────

/// Left to choose, a non-empty input gets printable ASCII noise exactly when one of its
/// characters is a symbol, neither alphanumeric nor white space; otherwise (only letters,
/// digits and white space) it gets alphanumeric noise. An explicit choice stands, and an
/// empty input gets the hacker set.
pub proof fn lemma_auto_noise_set(input: Seq<char>)
    ensures
        input.len() > 0 ==> ((resolve_spec(CharSet::Auto, input) == ResolvedCharSet::Ascii) <==> exists|i: int|
            0 <= i < input.len() && !unicode_alphanumeric(#[trigger] input[i]) && !is_white_space(input[i])),
        input.len() > 0 && (forall|i: int|
            0 <= i < input.len() ==> unicode_alphanumeric(#[trigger] input[i]) || is_white_space(input[i]))
            ==> resolve_spec(CharSet::Auto, input) == ResolvedCharSet::Alnum,
        input.len() == 0 ==> resolve_spec(CharSet::Auto, input) == ResolvedCharSet::Hacker,
        resolve_spec(CharSet::Ascii, input) == ResolvedCharSet::Ascii,
        resolve_spec(CharSet::Alnum, input) == ResolvedCharSet::Alnum,
        resolve_spec(CharSet::Hacker, input) == ResolvedCharSet::Hacker,
{
    if input.len() > 0 {
        if exists|i: int| 0 <= i < input.len() && !unicode_alphanumeric(#[trigger] input[i]) && !is_white_space(input[i]) {
            let i = choose|i: int| 0 <= i < input.len() && !unicode_alphanumeric(#[trigger] input[i]) && !is_white_space(input[i]);
            assert(crate::charset::is_symbol(input[i]));
        }
        if exists|i: int| 0 <= i < input.len() && crate::charset::is_symbol(#[trigger] input[i]) {
            let i = choose|i: int| 0 <= i < input.len() && crate::charset::is_symbol(#[trigger] input[i]);
            assert(!unicode_alphanumeric(input[i]) && !is_white_space(input[i]));
        }
    }
}

/// The same, for the choice from given alphanumeric results: a character counts as a
/// symbol exactly when it is neither alphanumeric by them nor white space.
pub proof fn lemma_auto_noise_set_given(input: Seq<char>, alphanumeric: Seq<bool>)
    requires
        alphanumeric.len() == input.len(),
        input.len() > 0,
    ensures
        (resolve_given(CharSet::Auto, input, alphanumeric) == ResolvedCharSet::Ascii) <==> exists|i: int|
            0 <= i < input.len() && !(#[trigger] alphanumeric[i]) && !is_white_space(input[i]),
        (forall|i: int| 0 <= i < input.len() ==> #[trigger] alphanumeric[i] || is_white_space(input[i]))
            ==> resolve_given(CharSet::Auto, input, alphanumeric) == ResolvedCharSet::Alnum,
{
}

// ── Lines that open with their own codes ────────────────────────────────────

proof fn lemma_first_non_space_after(w: Seq<char>, rest: Seq<char>)
    requires
        all_white_space(w),
        rest.len() > 0,
        !is_white_space(rest[0]),
    ensures
        crate::layout::first_non_space(w + rest) == w.len(),
{
    let s = w + rest;
    assert(s[w.len() as int] == rest[0]);
    assert forall|j: int| 0 <= j < w.len() implies is_white_space(#[trigger] s[j]) by {
        assert(s[j] == w[j]);
    }
    assert(0 <= w.len() < s.len() && !is_white_space(s[w.len() as int]) && forall|j: int|
        0 <= j < w.len() ==> is_white_space(#[trigger] s[j]));
    let k = choose|k: int|
        0 <= k < s.len() && !is_white_space(#[trigger] s[k]) && forall|j: int| 0 <= j < k ==> is_white_space(#[trigger] s[j]);
    if k < w.len() {
        assert(s[k] == w[k]);
    }
    if k > w.len() {
        assert(is_white_space(s[w.len() as int]));
    }
}

/// A line that, after leading white space, opens with its own control sequence gets no
/// carried prefix: it passes unchanged, and the state carried past it is the one the line
/// itself sets.
pub proof fn lemma_own_codes_not_prefixed(
    lines: Seq<String>,
    marker: char,
    i: int,
    st: GraphicsState,
    w: Seq<char>,
    rest: Seq<char>,
)
    requires
        0 <= i < lines.len(),
        lines[i]@ == w + seq!['\x1b', '['] + rest,
        all_white_space(w),
        visual_width_spec(lines[i]@, marker) > 0,
    ensures
        propagate_from(lines, marker, i, st) == seq![lines[i]@] + propagate_from(
            lines,
            marker,
            i + 1,
            line_state(lines[i]@),
        ),
{
    let line = lines[i]@;
    let r = seq!['\x1b', '['] + rest;
    assert(w + r == line);
    assert(r[0] == '\x1b');
    lemma_first_non_space_after(w, r);
    assert(line[w.len() as int] == '\x1b' && line[w.len() as int + 1] == '[');
    assert(crate::layout::opens_with_csi(line));
}

/// A line with visible content that, after leading white space, does not open with a
/// control sequence repeats the carried state in front of it when that state is not the
/// initial one.
pub proof fn lemma_continuation_prefixed(
    lines: Seq<String>,
    marker: char,
    i: int,
    st: GraphicsState,
    w: Seq<char>,
    rest: Seq<char>,
)
    requires
        0 <= i < lines.len(),
        lines[i]@ == w + rest,
        all_white_space(w),
        rest.len() > 0,
        !is_white_space(rest[0]),
        !(rest[0] == '\x1b' && rest.len() > 1 && rest[1] == '['),
        visual_width_spec(lines[i]@, marker) > 0,
        st != initial_state(),
    ensures
        propagate_from(lines, marker, i, st)[0] == state_prefix(st) + lines[i]@,
{
    let line = lines[i]@;
    lemma_first_non_space_after(w, rest);
    assert(line[w.len() as int] == rest[0]);
    if rest.len() > 1 {
        assert(line[w.len() as int + 1] == rest[1]);
    }
    assert(!crate::layout::opens_with_csi(line));
}

} // verus!
