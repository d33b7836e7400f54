//! Layout helpers: marker parsing, ANSI stripping, column composition.
//! Pure functions, no I/O.

use vstd::prelude::*;
use crate::text::{
    chars_of, decimal, is_ascii_alpha, is_ascii_alphabetic, is_white_space, is_whitespace,
    parse_usize, parse_usize_spec, push_decimal,
};

verus! {

// ── Control sequences ───────────────────────────────────────────────────────

/// A control sequence introducer (`ESC [`) starts at position `i` of `s`.
pub open spec fn csi_at(s: Seq<char>, i: int) -> bool {
    0 <= i && i + 1 < s.len() && s[i] == '\x1b' && s[i + 1] == '['
}

/// Position just past the end of a control sequence whose body starts at `j`:
/// past the first ASCII letter at or after `j`, or the end of `s` if there is none.
pub open spec fn csi_end(s: Seq<char>, j: int) -> int
    decreases s.len() - j,
{
    if j >= s.len() {
        s.len() as int
    } else if is_ascii_alpha(s[j]) {
        j + 1
    } else {
        csi_end(s, j + 1)
    }
}

/// The control sequence at `i` is terminated by `m` (a Select Graphic Rendition code).
pub open spec fn sgr_at(s: Seq<char>, i: int) -> bool {
    &&& csi_at(s, i)
    &&& csi_end(s, i + 2) > i + 2
    &&& s[csi_end(s, i + 2) - 1] == 'm'
}

pub proof fn lemma_csi_end_bounds(s: Seq<char>, j: int)
    requires
        0 <= j <= s.len(),
    ensures
        j <= csi_end(s, j) <= s.len(),
        j < s.len() ==> j < csi_end(s, j),
        csi_end(s, j) > j ==> (csi_end(s, j) == s.len() || is_ascii_alpha(s[csi_end(s, j) - 1])),
    decreases s.len() - j,
{
    if j < s.len() && !is_ascii_alpha(s[j]) {
        lemma_csi_end_bounds(s, j + 1);
    }
}

/// The visible characters of `s` from position `i` on: every control sequence is dropped.
pub open spec fn strip_from(s: Seq<char>, i: int) -> Seq<char>
    decreases s.len() - i,
{
    if i < 0 || i >= s.len() {
        seq![]
    } else if csi_at(s, i) {
        proof {
            lemma_csi_end_bounds(s, i + 2);
        }
        strip_from(s, csi_end(s, i + 2))
    } else {
        seq![s[i]] + strip_from(s, i + 1)
    }
}

/// `s` without its ANSI control sequences.
pub open spec fn strip_ansi_spec(s: Seq<char>) -> Seq<char> {
    strip_from(s, 0)
}

/// End of the control sequence whose body starts at `j`.
fn scan_csi(v: &Vec<char>, j: usize) -> (e: usize)
    requires
        j <= v@.len(),
    ensures
        e == csi_end(v@, j as int),
        j <= e <= v@.len(),
{
    proof {
        lemma_csi_end_bounds(v@, j as int);
    }
    let mut k = j;
    while k < v.len() && !is_ascii_alphabetic(v[k])
        invariant
            j <= k <= v@.len(),
            csi_end(v@, k as int) == csi_end(v@, j as int),
        decreases v@.len() - k,
    {
        k = k + 1;
    }
    if k < v.len() {
        k + 1
    } else {
        k
    }
}

/// Strip all ANSI escape sequences for width measurement.
pub fn strip_ansi(s: &str) -> (r: String)
    ensures
        r@ == strip_ansi_spec(s@),
{
    let v = chars_of(s);
    let n = v.len();
    let mut out = String::new();
    let mut i: usize = 0;
    while i < n
        invariant
            i <= n,
            n == v@.len(),
            out@ + strip_from(v@, i as int) == strip_from(v@, 0),
        decreases n - i,
    {
        if v[i] == '\x1b' && i + 1 < n && v[i + 1] == '[' {
            let e = scan_csi(&v, i + 2);
            i = e;
        } else {
            out.push(v[i]);
            i = i + 1;
        }
    }
    out
}

/// From position `i` on: visible characters and SGR sequences are kept, every other
/// control sequence (cursor movement, erasing, ...) is dropped.
pub open spec fn keep_sgr_from(s: Seq<char>, i: int) -> Seq<char>
    decreases s.len() - i,
{
    if i < 0 || i >= s.len() {
        seq![]
    } else if csi_at(s, i) {
        proof {
            lemma_csi_end_bounds(s, i + 2);
        }
        let e = csi_end(s, i + 2);
        (if sgr_at(s, i) { s.subrange(i, e) } else { seq![] }) + keep_sgr_from(s, e)
    } else {
        seq![s[i]] + keep_sgr_from(s, i + 1)
    }
}

/// From position `i` on: only the SGR sequences, in order.
pub open spec fn sgr_codes_from(s: Seq<char>, i: int) -> Seq<char>
    decreases s.len() - i,
{
    if i < 0 || i >= s.len() {
        seq![]
    } else if csi_at(s, i) {
        proof {
            lemma_csi_end_bounds(s, i + 2);
        }
        let e = csi_end(s, i + 2);
        (if sgr_at(s, i) { s.subrange(i, e) } else { seq![] }) + sgr_codes_from(s, e)
    } else {
        sgr_codes_from(s, i + 1)
    }
}

/// Appends `v[from..to]` to `out`.
fn push_range(out: &mut String, v: &Vec<char>, from: usize, to: usize)
    requires
        from <= to <= v@.len(),
    ensures
        final(out)@ == old(out)@ + v@.subrange(from as int, to as int),
{
    let mut k = from;
    while k < to
        invariant
            from <= k <= to <= v@.len(),
            out@ == old(out)@ + v@.subrange(from as int, k as int),
        decreases to - k,
    {
        out.push(v[k]);
        assert(v@.subrange(from as int, k + 1) == v@.subrange(from as int, k as int).push(v@[k as int]));
        k = k + 1;
    }
}

/// Whether the control sequence starting at `i` (body ending at `e`) is an SGR code.
fn is_sgr(v: &Vec<char>, i: usize, e: usize) -> (r: bool)
    requires
        csi_at(v@, i as int),
        e == csi_end(v@, i + 2),
    ensures
        r == sgr_at(v@, i as int),
{
    proof {
        lemma_csi_end_bounds(v@, i + 2);
    }
    e > i + 2 && v[e - 1] == 'm'
}

/// Strip cursor-movement ANSI codes (A–H, J–l, n–z) but keep SGR color codes (ending in 'm').
pub fn strip_cursor_codes(s: &str) -> (r: String)
    ensures
        r@ == keep_sgr_from(s@, 0),
{
    let v = chars_of(s);
    let n = v.len();
    let mut out = String::new();
    let mut i: usize = 0;
    while i < n
        invariant
            i <= n,
            n == v@.len(),
            out@ + keep_sgr_from(v@, i as int) == keep_sgr_from(v@, 0),
        decreases n - i,
    {
        if v[i] == '\x1b' && i + 1 < n && v[i + 1] == '[' {
            let e = scan_csi(&v, i + 2);
            if is_sgr(&v, i, e) {
                push_range(&mut out, &v, i, e);
            }
            i = e;
        } else {
            out.push(v[i]);
            i = i + 1;
        }
    }
    out
}

/// The SGR (`…m`) sequences of `s`, in order, with everything else dropped.
pub fn collect_sgr_codes(s: &str) -> (r: String)
    ensures
        r@ == sgr_codes_from(s@, 0),
{
    let v = chars_of(s);
    let n = v.len();
    let mut out = String::new();
    let mut i: usize = 0;
    while i < n
        invariant
            i <= n,
            n == v@.len(),
            out@ + sgr_codes_from(v@, i as int) == sgr_codes_from(v@, 0),
        decreases n - i,
    {
        if v[i] == '\x1b' && i + 1 < n && v[i + 1] == '[' {
            let e = scan_csi(&v, i + 2);
            if is_sgr(&v, i, e) {
                push_range(&mut out, &v, i, e);
            }
            i = e;
        } else {
            i = i + 1;
        }
    }
    out
}

/// Number of characters of `t` other than `marker`.
pub open spec fn count_other(t: Seq<char>, marker: char) -> nat {
    t.filter(|c: char| c != marker).len()
}

/// Visual display width of `s`: its characters without control sequences and markers.
pub open spec fn visual_width_spec(s: Seq<char>, marker: char) -> nat {
    count_other(strip_ansi_spec(s), marker)
}

/// Visual display width: strip ANSI codes and marker characters.
pub fn visual_width(s: &str, marker: char) -> (w: usize)
    ensures
        w == visual_width_spec(s@, marker),
{
    let stripped = strip_ansi(s);
    let v = chars_of(stripped.as_str());
    let mut count: usize = 0;
    let mut i: usize = 0;
    while i < v.len()
        invariant
            i <= v@.len(),
            v@ == strip_ansi_spec(s@),
            count == count_other(v@.take(i as int), marker),
            count <= i,
        decreases v@.len() - i,
    {
        proof {
            reveal(Seq::filter);
            assert(v@.take(i + 1).drop_last() == v@.take(i as int));
        }
        if v[i] != marker {
            count = count + 1;
        }
        i = i + 1;
    }
    assert(v@.take(v@.len() as int) == v@);
    count
}

/// The views of a list of strings.
pub open spec fn strings_view(v: Seq<String>) -> Seq<Seq<char>> {
    v.map_values(|s: String| s@)
}

/// The views of a list of columns of lines.
pub open spec fn columns_view(cols: Seq<Vec<String>>) -> Seq<Seq<Seq<char>>> {
    cols.map_values(|c: Vec<String>| strings_view(c@))
}

/// Number of leading lines of `lines` up to and including the last one with visible content.
pub open spec fn content_end(lines: Seq<Seq<char>>, marker: char) -> nat
    decreases lines.len(),
{
    if lines.len() == 0 {
        0
    } else if visual_width_spec(lines.last(), marker) > 0 {
        lines.len()
    } else {
        content_end(lines.drop_last(), marker)
    }
}

/// Trim trailing lines that have no visible content (empty or ANSI-only).
pub fn trim_trailing_empty(lines: &[String], marker: char) -> (r: &[String])
    ensures
        strings_view(r@) == strings_view(lines@).take(content_end(strings_view(lines@), marker) as int),
{
    let ghost v = strings_view(lines@);
    let mut end = lines.len();
    assert(v.take(end as int) == v);
    while end > 0 && visual_width(lines[end - 1].as_str(), marker) == 0
        invariant
            end <= lines@.len(),
            v == strings_view(lines@),
            content_end(v.take(end as int), marker) == content_end(v, marker),
        decreases end,
    {
        assert(v.take(end as int).drop_last() == v.take(end - 1));
        assert(v.take(end as int).last() == lines@[end - 1]@);
        end = end - 1;
    }
    proof {
        if end > 0 {
            assert(v.take(end as int).last() == lines@[end - 1]@);
        }
        assert(content_end(v.take(end as int), marker) == end);
    }
    let r = &lines[0..end];
    assert(strings_view(r@) == v.take(end as int));
    r
}

/// From position `i` on, each visible character paired with the control sequences that
/// stand between it and the previous visible character (`pending` holds those seen so far).
pub open spec fn context_from(s: Seq<char>, i: int, pending: Seq<char>) -> Seq<(char, Seq<char>)>
    decreases s.len() - i,
{
    if i < 0 || i >= s.len() {
        seq![]
    } else if csi_at(s, i) {
        proof {
            lemma_csi_end_bounds(s, i + 2);
        }
        let e = csi_end(s, i + 2);
        context_from(s, e, pending + s.subrange(i, e))
    } else {
        seq![(s[i], pending)] + context_from(s, i + 1, seq![])
    }
}

/// The view of a list of characters with their preceding codes.
pub open spec fn context_view(r: Seq<(char, String)>) -> Seq<(char, Seq<char>)> {
    r.map_values(|p: (char, String)| (p.0, p.1@))
}

/// Extract (text_char, preceding_ansi_codes) pairs from a string.
/// ANSI escape sequences are collected into `pending` and attached to the next real char.
pub fn chars_with_ansi_context(s: &str) -> (r: Vec<(char, String)>)
    ensures
        context_view(r@) == context_from(s@, 0, seq![]),
{
    let v = chars_of(s);
    let n = v.len();
    let mut out: Vec<(char, String)> = Vec::new();
    let mut pending = String::new();
    let mut i: usize = 0;
    while i < n
        invariant
            i <= n,
            n == v@.len(),
            context_view(out@) + context_from(v@, i as int, pending@) == context_from(v@, 0, seq![]),
        decreases n - i,
    {
        if v[i] == '\x1b' && i + 1 < n && v[i + 1] == '[' {
            let e = scan_csi(&v, i + 2);
            push_range(&mut pending, &v, i, e);
            i = e;
        } else {
            let p = pending;
            pending = String::new();
            let ghost before = out@;
            out.push((v[i], p));
            assert(context_view(out@) == context_view(before) + seq![(v@[i as int], p@)]);
            i = i + 1;
        }
    }
    out
}

/// From position `i` on, with `visible` characters already kept: control sequences are
/// kept, visible characters are kept while fewer than `max_width` have been kept.
pub open spec fn truncate_from(s: Seq<char>, i: int, visible: int, max_width: int) -> Seq<char>
    decreases s.len() - i,
{
    if i < 0 || i >= s.len() {
        seq![]
    } else if csi_at(s, i) {
        proof {
            lemma_csi_end_bounds(s, i + 2);
        }
        let e = csi_end(s, i + 2);
        s.subrange(i, e) + truncate_from(s, e, visible, max_width)
    } else if visible >= max_width {
        seq![]
    } else {
        seq![s[i]] + truncate_from(s, i + 1, visible + 1, max_width)
    }
}

/// Truncate a string to at most `max_width` visible characters, preserving ANSI codes.
pub fn truncate_to_visual_width(s: &str, max_width: usize) -> (r: String)
    ensures
        r@ == truncate_from(s@, 0, 0, max_width as int),
{
    let v = chars_of(s);
    let n = v.len();
    let mut out = String::new();
    let mut visible: usize = 0;
    let mut i: usize = 0;
    while i < n
        invariant
            i <= n,
            n == v@.len(),
            visible <= i,
            out@ + truncate_from(v@, i as int, visible as int, max_width as int)
                == truncate_from(v@, 0, 0, max_width as int),
        ensures
            out@ == truncate_from(v@, 0, 0, max_width as int),
        decreases n - i,
    {
        if v[i] == '\x1b' && i + 1 < n && v[i + 1] == '[' {
            let e = scan_csi(&v, i + 2);
            push_range(&mut out, &v, i, e);
            i = e;
        } else {
            if visible >= max_width {
                assert(truncate_from(v@, i as int, visible as int, max_width as int) == Seq::<char>::empty());
                break;
            }
            out.push(v[i]);
            visible = visible + 1;
            i = i + 1;
        }
    }
    out
}

// ── Marker regions ──────────────────────────────────────────────────────────

/// A run of text that is either shown as is or scrambled before it is revealed.
#[derive(Debug, PartialEq)]
pub enum Segment {
    Static(String),
    Scrambled(String),
}

impl View for Segment {
    /// Whether the segment is scrambled, and its text.
    type V = (bool, Seq<char>);

    open spec fn view(&self) -> (bool, Seq<char>) {
        match self {
            Segment::Static(t) => (false, t@),
            Segment::Scrambled(t) => (true, t@),
        }
    }
}

/// The pieces of `s` between marker characters: one more piece than there are markers.
pub open spec fn split_at_markers(s: Seq<char>, marker: char) -> Seq<Seq<char>>
    decreases s.len(),
{
    if s.len() == 0 {
        seq![seq![]]
    } else {
        let p = split_at_markers(s.drop_last(), marker);
        if s.last() == marker {
            p.push(seq![])
        } else {
            p.update(p.len() - 1, p.last().push(s.last()))
        }
    }
}

/// The non-empty pieces, in order; the piece after an odd number of markers is scrambled.
pub open spec fn marked_segments(pieces: Seq<Seq<char>>) -> Seq<(bool, Seq<char>)>
    decreases pieces.len(),
{
    if pieces.len() == 0 {
        seq![]
    } else {
        marked_segments(pieces.drop_last()) + if pieces.last().len() > 0 {
            seq![((pieces.len() - 1) % 2 == 1, pieces.last())]
        } else {
            seq![]
        }
    }
}

/// The segments of `line` with markers `marker`.
pub open spec fn parse_markers_spec(line: Seq<char>, marker: char) -> Seq<(bool, Seq<char>)> {
    marked_segments(split_at_markers(line, marker))
}

/// The views of a list of segments.
pub open spec fn segments_view(segs: Seq<Segment>) -> Seq<(bool, Seq<char>)> {
    segs.map_values(|g: Segment| g@)
}

pub proof fn lemma_split_nonempty(s: Seq<char>, marker: char)
    ensures
        split_at_markers(s, marker).len() >= 1,
    decreases s.len(),
{
    if s.len() > 0 {
        lemma_split_nonempty(s.drop_last(), marker);
    }
}

/// A segment of `text`, scrambled or not.
fn make_segment(scrambled: bool, text: String) -> (g: Segment)
    ensures
        g@ == (scrambled, text@),
{
    if scrambled {
        Segment::Scrambled(text)
    } else {
        Segment::Static(text)
    }
}

/// Parse a line into static and scrambled segments.
/// Text enclosed in `marker` characters is scrambled; the rest is static.
/// Marker characters are stripped from the output.
pub fn parse_markers(line: &str, marker: char) -> (r: Vec<Segment>)
    ensures
        segments_view(r@) == parse_markers_spec(line@, marker),
{
    let v = chars_of(line);
    let n = v.len();
    let mut segments: Vec<Segment> = Vec::new();
    let mut current = String::new();
    let mut in_scramble = false;
    let mut i: usize = 0;
    proof {
        assert(v@.take(0) == Seq::<char>::empty());
    }
    while i < n
        invariant
            i <= n,
            n == v@.len(),
            split_at_markers(v@.take(i as int), marker).len() >= 1,
            segments_view(segments@) == marked_segments(
                split_at_markers(v@.take(i as int), marker).drop_last(),
            ),
            current@ == split_at_markers(v@.take(i as int), marker).last(),
            in_scramble == ((split_at_markers(v@.take(i as int), marker).len() - 1) % 2 == 1),
        decreases n - i,
    {
        let ghost p = split_at_markers(v@.take(i as int), marker);
        let ch = v[i];
        proof {
            assert(v@.take(i + 1).drop_last() == v@.take(i as int));
            assert(v@.take(i + 1).last() == ch);
        }
        if ch == marker {
            if !current.as_str().is_empty() {
                let seg_text = current;
                current = String::new();
                let ghost before = segments@;
                segments.push(make_segment(in_scramble, seg_text));
                assert(segments_view(segments@) == segments_view(before) + seq![(in_scramble, seg_text@)]);
            } else {
                current = String::new();
            }
            in_scramble = !in_scramble;
            proof {
                let q = split_at_markers(v@.take(i + 1), marker);
                assert(q == p.push(seq![]));
                assert(q.drop_last() == p);
                assert(p.last().len() > 0 ==> segments_view(segments@) == marked_segments(p));
            }
        } else {
            current.push(ch);
            proof {
                let q = split_at_markers(v@.take(i + 1), marker);
                assert(q.drop_last() == p.drop_last());
            }
        }
        i = i + 1;
    }
    proof {
        assert(v@.take(n as int) == v@);
        lemma_split_nonempty(v@, marker);
    }
    if !current.as_str().is_empty() {
        let ghost before = segments@;
        segments.push(make_segment(in_scramble, current));
        assert(segments_view(segments@) == segments_view(before) + seq![(in_scramble, split_at_markers(v@, marker).last())]);
    }
    segments
}

// ── Columns ─────────────────────────────────────────────────────────────────

/// The widest visual width among `col`'s lines (0 for no lines).
pub open spec fn max_width_of(col: Seq<Seq<char>>, marker: char) -> nat
    decreases col.len(),
{
    if col.len() == 0 {
        0
    } else {
        let rest = max_width_of(col.drop_last(), marker);
        let w = visual_width_spec(col.last(), marker);
        if w > rest {
            w
        } else {
            rest
        }
    }
}

/// The number of lines of the tallest column (0 for no columns).
pub open spec fn layout_height(cols: Seq<Seq<Seq<char>>>) -> nat
    decreases cols.len(),
{
    if cols.len() == 0 {
        0
    } else {
        let rest = layout_height(cols.drop_last());
        if cols.last().len() > rest {
            cols.last().len()
        } else {
            rest
        }
    }
}

/// The text of column `ci` in row `row`: its line there, or empty past its end.
pub open spec fn cell_text(cols: Seq<Seq<Seq<char>>>, row: int, ci: int) -> Seq<char> {
    if row < cols[ci].len() {
        cols[ci][row]
    } else {
        seq![]
    }
}

/// Spaces after column `ci` in row `row`: up to the column's widest line plus `gap`;
/// none after the last column.
pub open spec fn cell_padding(cols: Seq<Seq<Seq<char>>>, gap: int, marker: char, row: int, ci: int) -> int {
    if ci + 1 < cols.len() {
        max_width_of(cols[ci], marker) + gap - visual_width_spec(cell_text(cols, row, ci), marker)
    } else {
        0
    }
}

/// Every line of every column but the last (which gets no padding), widened by `gap`,
/// still fits in a `usize`.
pub open spec fn widths_fit(cols: Seq<Seq<Seq<char>>>, gap: int, marker: char) -> bool {
    forall|ci: int, k: int|
        0 <= ci < cols.len() - 1 && 0 <= k < cols[ci].len() ==> visual_width_spec(#[trigger] cols[ci][k], marker)
            + gap <= usize::MAX
}

pub proof fn lemma_max_width_bounds(col: Seq<Seq<char>>, marker: char, k: int)
    requires
        0 <= k < col.len(),
    ensures
        visual_width_spec(col[k], marker) <= max_width_of(col, marker),
    decreases col.len(),
{
    if k < col.len() - 1 {
        lemma_max_width_bounds(col.drop_last(), marker, k);
    }
}

pub proof fn lemma_max_width_attained(col: Seq<Seq<char>>, marker: char)
    requires
        col.len() > 0,
    ensures
        exists|k: int| 0 <= k < col.len() && max_width_of(col, marker) == visual_width_spec(#[trigger] col[k], marker),
    decreases col.len(),
{
    if col.len() > 1 {
        lemma_max_width_attained(col.drop_last(), marker);
        let k = choose|k: int| 0 <= k < col.len() - 1 && max_width_of(col.drop_last(), marker) == visual_width_spec(#[trigger] col.drop_last()[k], marker);
        assert(col.drop_last()[k] == col[k]);
        assert(col.last() == col[col.len() - 1]);
    } else {
        assert(col.drop_last().len() == 0);
        assert(col.last() == col[0]);
        assert(max_width_of(col.drop_last(), marker) == 0);
        assert(max_width_of(col, marker) == visual_width_spec(col[0], marker));
    }
}

/// The widest visual width among `col`'s lines.
pub fn column_max_width(col: &Vec<String>, marker: char) -> (w: usize)
    ensures
        w == max_width_of(strings_view(col@), marker),
{
    let ghost v = strings_view(col@);
    let mut w: usize = 0;
    let mut k: usize = 0;
    while k < col.len()
        invariant
            k <= col@.len(),
            v == strings_view(col@),
            w == max_width_of(v.take(k as int), marker),
        decreases col@.len() - k,
    {
        assert(v.take(k + 1).drop_last() == v.take(k as int));
        assert(v.take(k + 1).last() == col@[k as int]@);
        let x = visual_width(col[k].as_str(), marker);
        if x > w {
            w = x;
        }
        k = k + 1;
    }
    assert(v.take(col@.len() as int) == v);
    w
}

/// The number of lines of the tallest column.
pub fn columns_height(cols: &[Vec<String>]) -> (h: usize)
    ensures
        h == layout_height(columns_view(cols@)),
{
    let ghost v = columns_view(cols@);
    let mut h: usize = 0;
    let mut k: usize = 0;
    while k < cols.len()
        invariant
            k <= cols@.len(),
            v == columns_view(cols@),
            h == layout_height(v.take(k as int)),
        decreases cols@.len() - k,
    {
        assert(v.take(k + 1).drop_last() == v.take(k as int));
        assert(v.take(k + 1).last().len() == cols@[k as int]@.len());
        if cols[k].len() > h {
            h = cols[k].len();
        }
        k = k + 1;
    }
    assert(v.take(cols@.len() as int) == v);
    h
}

/// One row of a layout is right: one `(content, padding)` cell per column.
pub open spec fn layout_row_ok(
    cols: Seq<Seq<Seq<char>>>,
    gap: int,
    marker: char,
    row: int,
    cells: Seq<(String, usize)>,
) -> bool {
    &&& cells.len() == cols.len()
    &&& forall|ci: int|
        0 <= ci < cols.len() ==> {
            &&& (#[trigger] cells[ci]).0@ == cell_text(cols, row, ci)
            &&& cells[ci].1 == cell_padding(cols, gap, marker, row, ci)
        }
}

/// Pair N column slices with computed per-row padding.
/// Returns rows × cols: each `(content, padding_after_this_col)`.
/// The last column always has padding = 0.
/// Shorter columns are padded with empty strings to match the tallest column.
pub fn compose_layout(cols: &[Vec<String>], gap: usize, marker: char) -> (r: Vec<Vec<(String, usize)>>)
    requires
        widths_fit(columns_view(cols@), gap as int, marker),
    ensures
        r@.len() == layout_height(columns_view(cols@)),
        forall|row: int|
            0 <= row < r@.len() ==> layout_row_ok(columns_view(cols@), gap as int, marker, row, #[trigger] r@[row]@),
{
    let ghost cv = columns_view(cols@);
    let n = cols.len();
    if n == 0 {
        return Vec::new();
    }
    let mut max_widths: Vec<usize> = Vec::new();
    let mut ci: usize = 0;
    while ci < n
        invariant
            ci <= n,
            n == cols@.len(),
            cv == columns_view(cols@),
            max_widths@.len() == ci,
            forall|j: int| 0 <= j < ci ==> #[trigger] max_widths@[j] == max_width_of(cv[j], marker),
        decreases n - ci,
    {
        max_widths.push(column_max_width(&cols[ci], marker));
        ci = ci + 1;
    }
    let height = columns_height(cols);
    let mut rows: Vec<Vec<(String, usize)>> = Vec::new();
    let mut row: usize = 0;
    while row < height
        invariant
            row <= height,
            height == layout_height(cv),
            n == cols@.len(),
            cv == columns_view(cols@),
            max_widths@.len() == n,
            forall|j: int| 0 <= j < n ==> #[trigger] max_widths@[j] == max_width_of(cv[j], marker),
            widths_fit(cv, gap as int, marker),
            rows@.len() == row,
            forall|k: int| 0 <= k < row ==> layout_row_ok(cv, gap as int, marker, k, #[trigger] rows@[k]@),
        decreases height - row,
    {
        let mut cells: Vec<(String, usize)> = Vec::new();
        let mut ci: usize = 0;
        while ci < n
            invariant
                ci <= n,
                n == cols@.len(),
                cv == columns_view(cols@),
                max_widths@.len() == n,
                forall|j: int| 0 <= j < n ==> #[trigger] max_widths@[j] == max_width_of(cv[j], marker),
                widths_fit(cv, gap as int, marker),
                cells@.len() == ci,
                forall|j: int|
                    0 <= j < ci ==> {
                        &&& (#[trigger] cells@[j]).0@ == cell_text(cv, row as int, j)
                        &&& cells@[j].1 == cell_padding(cv, gap as int, marker, row as int, j)
                    },
            decreases n - ci,
        {
            assert(cv[ci as int] == strings_view(cols@[ci as int]@));
            let content: String = if row < cols[ci].len() {
                assert(cv[ci as int][row as int] == cols@[ci as int]@[row as int]@);
                cols[ci][row].clone()
            } else {
                String::new()
            };
            let w = visual_width(content.as_str(), marker);
            let padding: usize = if ci + 1 < n {
                proof {
                    if (row as int) < cv[ci as int].len() {
                        lemma_max_width_bounds(cv[ci as int], marker, row as int);
                    }
                    if cv[ci as int].len() > 0 {
                        lemma_max_width_attained(cv[ci as int], marker);
                    }
                }
                max_widths[ci] + gap - w
            } else {
                0
            };
            cells.push((content, padding));
            ci = ci + 1;
        }
        assert(layout_row_ok(cv, gap as int, marker, row as int, cells@));
        rows.push(cells);
        row = row + 1;
    }
    rows
}

// ── Graphics state carried across lines ─────────────────────────────────────

/// Terminal foreground after applying SGR `m` sequences in order (subset of ECMA-48).
#[derive(Clone, Copy, Debug, PartialEq, Eq, Structural)]
pub enum Fg {
    Default,
    Ansi(u8),
    Color256(u8),
    Rgb(u8, u8, u8),
}

/// Bold + foreground snapshot for SGR carry between lines.
#[derive(Clone, Copy, Debug, PartialEq, Eq, Structural)]
pub struct GraphicsState {
    pub bold: bool,
    pub fg: Fg,
}

/// The state of a terminal before any SGR sequence: not bold, default foreground.
pub open spec fn initial_state() -> GraphicsState {
    GraphicsState { bold: false, fg: Fg::Default }
}

impl Default for GraphicsState {
    fn default() -> (r: GraphicsState)
        ensures
            r == initial_state(),
    {
        GraphicsState { bold: false, fg: Fg::Default }
    }
}

/// `ESC [` followed by `body` and `m`.
pub open spec fn sgr_seq(body: Seq<char>) -> Seq<char> {
    seq!['\x1b', '['] + body + seq!['m']
}

/// The SGR sequence that selects foreground `fg` (nothing for the default).
pub open spec fn fg_prefix(fg: Fg) -> Seq<char> {
    match fg {
        Fg::Default => seq![],
        Fg::Ansi(n) => sgr_seq(decimal(n as nat)),
        Fg::Color256(n) => sgr_seq(seq!['3', '8', ';', '5', ';'] + decimal(n as nat)),
        Fg::Rgb(r, g, b) => sgr_seq(
            seq!['3', '8', ';', '2', ';'] + decimal(r as nat) + seq![';'] + decimal(g as nat) + seq![';']
                + decimal(b as nat),
        ),
    }
}

/// Minimal prefix that reproduces `st`: bold, then the foreground; nothing for the initial state.
pub open spec fn state_prefix(st: GraphicsState) -> Seq<char> {
    if st == initial_state() {
        seq![]
    } else {
        (if st.bold { sgr_seq(seq!['1']) } else { seq![] }) + fg_prefix(st.fg)
    }
}

/// Appends the characters of `cs` to `out`.
fn push_chars(out: &mut String, cs: &[char])
    ensures
        final(out)@ == old(out)@ + cs@,
{
    let mut k: usize = 0;
    while k < cs.len()
        invariant
            k <= cs@.len(),
            out@ == old(out)@ + cs@.take(k as int),
        decreases cs@.len() - k,
    {
        out.push(cs[k]);
        assert(cs@.take(k + 1) == cs@.take(k as int).push(cs@[k as int]));
        k = k + 1;
    }
    assert(cs@.take(cs@.len() as int) == cs@);
}

impl GraphicsState {
    pub fn is_default(&self) -> (r: bool)
        ensures
            r == (*self == initial_state()),
    {
        !self.bold && match self.fg {
            Fg::Default => true,
            _ => false,
        }
    }

    /// Minimal prefix that reproduces this state (for lines that omit repeated SGR).
    pub fn to_prefix(&self) -> (r: String)
        ensures
            r@ == state_prefix(*self),
    {
        if self.is_default() {
            return String::new();
        }
        let mut s = String::new();
        if self.bold {
            push_chars(&mut s, &['\x1b', '[', '1', 'm']);
        }
        let ghost bold_part = s@;
        match self.fg {
            Fg::Default => {},
            Fg::Ansi(n) => {
                push_chars(&mut s, &['\x1b', '[']);
                push_decimal(&mut s, n as u64);
                push_chars(&mut s, &['m']);
            },
            Fg::Color256(n) => {
                push_chars(&mut s, &['\x1b', '[', '3', '8', ';', '5', ';']);
                push_decimal(&mut s, n as u64);
                push_chars(&mut s, &['m']);
            },
            Fg::Rgb(r, g, b) => {
                push_chars(&mut s, &['\x1b', '[', '3', '8', ';', '2', ';']);
                push_decimal(&mut s, r as u64);
                push_chars(&mut s, &[';']);
                push_decimal(&mut s, g as u64);
                push_chars(&mut s, &[';']);
                push_decimal(&mut s, b as u64);
                push_chars(&mut s, &['m']);
            },
        }
        assert(s@ == bold_part + fg_prefix(self.fg));
        s
    }
}

/// The value of one SGR parameter field: its number, or 0 when it does not parse.
pub open spec fn field_value(f: Seq<char>) -> usize {
    match parse_usize_spec(f) {
        Some(v) => v as usize,
        None => 0,
    }
}

/// The numbers of an SGR parameter string: its `;`-separated fields, each by `field_value`.
pub open spec fn sgr_param_nums(params: Seq<char>) -> Seq<usize> {
    split_at_markers(params, ';').map_values(|f: Seq<char>| field_value(f))
}

fn field_value_of(f: &Vec<char>) -> (r: usize)
    ensures
        r == field_value(f@),
{
    match parse_usize(f) {
        Some(v) => v,
        None => 0,
    }
}

fn parse_sgr_param_nums(params: &Vec<char>) -> (r: Vec<usize>)
    ensures
        r@ == sgr_param_nums(params@),
{
    if params.len() == 0 {
        let mut r: Vec<usize> = Vec::new();
        r.push(0);
        assert(parse_usize_spec(Seq::<char>::empty()) is None);
        assert(sgr_param_nums(params@) == seq![field_value(Seq::<char>::empty())]);
        return r;
    }
    let n = params.len();
    let mut nums: Vec<usize> = Vec::new();
    let mut current: Vec<char> = Vec::new();
    let mut i: usize = 0;
    assert(params@.take(0) == Seq::<char>::empty());
    while i < n
        invariant
            i <= n,
            n == params@.len(),
            split_at_markers(params@.take(i as int), ';').len() >= 1,
            nums@ == split_at_markers(params@.take(i as int), ';').drop_last().map_values(
                |f: Seq<char>| field_value(f),
            ),
            current@ == split_at_markers(params@.take(i as int), ';').last(),
        decreases n - i,
    {
        let ghost p = split_at_markers(params@.take(i as int), ';');
        let ch = params[i];
        proof {
            assert(params@.take(i + 1).drop_last() == params@.take(i as int));
            assert(params@.take(i + 1).last() == ch);
        }
        if ch == ';' {
            let v = field_value_of(&current);
            nums.push(v);
            current = Vec::new();
            proof {
                let q = split_at_markers(params@.take(i + 1), ';');
                assert(q == p.push(seq![]));
                assert(q.drop_last() == p);
                assert(p == p.drop_last().push(p.last()));
            }
        } else {
            current.push(ch);
            proof {
                let q = split_at_markers(params@.take(i + 1), ';');
                assert(q.drop_last() == p.drop_last());
            }
        }
        i = i + 1;
    }
    proof {
        assert(params@.take(n as int) == params@);
        let p = split_at_markers(params@, ';');
        assert(p == p.drop_last().push(p.last()));
    }
    let v = field_value_of(&current);
    nums.push(v);
    nums
}

/// `st` after the SGR parameters `nums[i..]` (codes 0, 1, 22, 30–37, 90–97, 38;5;n,
/// 38;2;r;g;b and 39; every other code is skipped). Colour values are taken modulo 256.
pub open spec fn apply_sgr_from(nums: Seq<usize>, i: int, st: GraphicsState) -> GraphicsState
    decreases nums.len() - i,
{
    if i < 0 || i >= nums.len() {
        st
    } else {
        let x = nums[i];
        if x == 0 {
            apply_sgr_from(nums, i + 1, initial_state())
        } else if x == 1 {
            apply_sgr_from(nums, i + 1, GraphicsState { bold: true, ..st })
        } else if x == 22 {
            apply_sgr_from(nums, i + 1, GraphicsState { bold: false, ..st })
        } else if (30 <= x <= 37) || (90 <= x <= 97) {
            apply_sgr_from(nums, i + 1, GraphicsState { fg: Fg::Ansi(x as u8), ..st })
        } else if x == 38 && nums.len() - i > 2 && nums[i + 1] == 5 {
            apply_sgr_from(nums, i + 3, GraphicsState { fg: Fg::Color256(nums[i + 2] as u8), ..st })
        } else if x == 38 && nums.len() - i > 4 && nums[i + 1] == 2 {
            apply_sgr_from(
                nums,
                i + 5,
                GraphicsState {
                    fg: Fg::Rgb(nums[i + 2] as u8, nums[i + 3] as u8, nums[i + 4] as u8),
                    ..st
                },
            )
        } else if x == 39 {
            apply_sgr_from(nums, i + 1, GraphicsState { fg: Fg::Default, ..st })
        } else {
            apply_sgr_from(nums, i + 1, st)
        }
    }
}

fn apply_sgr_params(nums: &[usize], state: &mut GraphicsState)
    ensures
        *final(state) == apply_sgr_from(nums@, 0, *old(state)),
{
    let mut i: usize = 0;
    while i < nums.len()
        invariant
            i <= nums@.len(),
            apply_sgr_from(nums@, i as int, *state) == apply_sgr_from(nums@, 0, *old(state)),
        decreases nums@.len() - i,
    {
        let x = nums[i];
        if x == 0 {
            *state = GraphicsState::default();
        } else if x == 1 {
            state.bold = true;
        } else if x == 22 {
            state.bold = false;
        } else if (30 <= x && x <= 37) || (90 <= x && x <= 97) {
            state.fg = Fg::Ansi(x as u8);
        } else if x == 38 && nums.len() - i > 2 && nums[i + 1] == 5 {
            state.fg = Fg::Color256(#[verifier::truncate] (nums[i + 2] as u8));
            i = i + 2;
        } else if x == 38 && nums.len() - i > 4 && nums[i + 1] == 2 {
            state.fg = Fg::Rgb(
                #[verifier::truncate] (nums[i + 2] as u8),
                #[verifier::truncate] (nums[i + 3] as u8),
                #[verifier::truncate] (nums[i + 4] as u8),
            );
            i = i + 4;
        } else if x == 39 {
            state.fg = Fg::Default;
        }
        i = i + 1;
    }
}

/// `st` after every SGR sequence of `s` from position `i` on, in order.
pub open spec fn line_state_from(s: Seq<char>, i: int, st: GraphicsState) -> GraphicsState
    decreases s.len() - i,
{
    if i < 0 || i >= s.len() {
        st
    } else if csi_at(s, i) {
        proof {
            lemma_csi_end_bounds(s, i + 2);
        }
        let e = csi_end(s, i + 2);
        if sgr_at(s, i) {
            line_state_from(s, e, apply_sgr_from(sgr_param_nums(s.subrange(i + 2, e - 1)), 0, st))
        } else {
            line_state_from(s, e, st)
        }
    } else {
        line_state_from(s, i + 1, st)
    }
}

/// The graphics state at the end of `s`, starting from the initial state.
pub open spec fn line_state(s: Seq<char>) -> GraphicsState {
    line_state_from(s, 0, initial_state())
}

/// Copies `v[from..to]`.
fn sub_vec(v: &Vec<char>, from: usize, to: usize) -> (r: Vec<char>)
    requires
        from <= to <= v@.len(),
    ensures
        r@ == v@.subrange(from as int, to as int),
{
    let mut r: Vec<char> = Vec::new();
    let mut k = from;
    while k < to
        invariant
            from <= k <= to <= v@.len(),
            r@ == v@.subrange(from as int, k as int),
        decreases to - k,
    {
        r.push(v[k]);
        assert(v@.subrange(from as int, k + 1) == v@.subrange(from as int, k as int).push(v@[k as int]));
        k = k + 1;
    }
    r
}

/// Apply all CSI SGR (`…m`) sequences in order (same scan as other helpers).
pub fn parse_sgr_line(line: &str) -> (st: GraphicsState)
    ensures
        st == line_state(line@),
{
    let v = chars_of(line);
    let n = v.len();
    let mut state = GraphicsState::default();
    let mut i: usize = 0;
    while i < n
        invariant
            i <= n,
            n == v@.len(),
            line_state_from(v@, i as int, state) == line_state(v@),
        decreases n - i,
    {
        if v[i] == '\x1b' && i + 1 < n && v[i + 1] == '[' {
            let e = scan_csi(&v, i + 2);
            if is_sgr(&v, i, e) {
                proof {
                    lemma_csi_end_bounds(v@, i + 2);
                }
                let params = sub_vec(&v, i + 2, e - 1);
                let nums = parse_sgr_param_nums(&params);
                apply_sgr_params(nums.as_slice(), &mut state);
            }
            i = e;
        } else {
            i = i + 1;
        }
    }
    state
}

/// Index of the first character of `s` that is not white space (`s.len()` if none).
pub open spec fn first_non_space(s: Seq<char>) -> int {
    if exists|k: int| 0 <= k < s.len() && !is_white_space(#[trigger] s[k]) {
        choose|k: int|
            0 <= k < s.len() && !is_white_space(#[trigger] s[k]) && forall|j: int|
                0 <= j < k ==> is_white_space(#[trigger] s[j])
    } else {
        s.len() as int
    }
}

/// After leading white space, `s` opens with `ESC [`.
pub open spec fn opens_with_csi(s: Seq<char>) -> bool {
    csi_at(s, first_non_space(s))
}

/// A line repeats the carried state when that state is not the initial one and the line,
/// after leading white space, does not open with its own control sequence.
pub open spec fn inherits_sgr(line: Seq<char>, st: GraphicsState) -> bool {
    st != initial_state() && !opens_with_csi(line)
}

fn line_should_inherit_sgr(line: &str, state: &GraphicsState) -> (r: bool)
    ensures
        r == inherits_sgr(line@, *state),
{
    if state.is_default() {
        return false;
    }
    let v = chars_of(line);
    let mut k: usize = 0;
    while k < v.len() && is_whitespace(v[k])
        invariant
            k <= v@.len(),
            forall|j: int| 0 <= j < k ==> is_white_space(#[trigger] v@[j]),
        decreases v@.len() - k,
    {
        k = k + 1;
    }
    proof {
        if k < v@.len() {
            assert(!is_white_space(v@[k as int]));
            let c = choose|c: int|
                0 <= c < v@.len() && !is_white_space(#[trigger] v@[c]) && forall|j: int|
                    0 <= j < c ==> is_white_space(#[trigger] v@[j]);
            if c < k {
                assert(is_white_space(v@[c]));
            }
            if k < c {
                assert(is_white_space(v@[k as int]));
            }
            assert(first_non_space(v@) == k);
        } else {
            assert(first_non_space(v@) == k);
        }
    }
    !(v.len() - k > 1 && v[k] == '\x1b' && v[k + 1] == '[')
}

/// `lines` from index `i` on, each repeating the state carried from the lines before it
/// when it needs to; visually empty lines pass unchanged and leave the state as it is.
pub open spec fn propagate_from(lines: Seq<String>, marker: char, i: int, st: GraphicsState) -> Seq<Seq<char>>
    decreases lines.len() - i,
{
    if i < 0 || i >= lines.len() {
        seq![]
    } else {
        let line = lines[i]@;
        if visual_width_spec(line, marker) == 0 {
            seq![line] + propagate_from(lines, marker, i + 1, st)
        } else {
            let out = if inherits_sgr(line, st) { state_prefix(st) + line } else { line };
            seq![out] + propagate_from(lines, marker, i + 1, line_state(out))
        }
    }
}

/// Repeat SGR foreground/bold on continuation lines when the source omits it (e.g. fastfetch logos).
/// Visually empty lines do not change the carried state (so blank padding rows do not reset color).
pub fn propagate_sgr_across_lines(lines: Vec<String>, marker: char) -> (r: Vec<String>)
    ensures
        strings_view(r@) == propagate_from(lines@, marker, 0, initial_state()),
{
    let mut state = GraphicsState::default();
    let mut out: Vec<String> = Vec::new();
    let mut i: usize = 0;
    while i < lines.len()
        invariant
            i <= lines@.len(),
            strings_view(out@) + propagate_from(lines@, marker, i as int, state)
                == propagate_from(lines@, marker, 0, initial_state()),
        decreases lines@.len() - i,
    {
        let line = lines[i].clone();
        let ghost before = out@;
        if visual_width(line.as_str(), marker) == 0 {
            out.push(line);
        } else {
            let line_out = if line_should_inherit_sgr(line.as_str(), &state) {
                let mut p = state.to_prefix();
                p.append(line.as_str());
                p
            } else {
                line
            };
            state = parse_sgr_line(line_out.as_str());
            out.push(line_out);
        }
        assert(strings_view(out@) == strings_view(before) + seq![out@.last()@]);
        i = i + 1;
    }
    out
}

} // verus!
