//! Side-by-side layout for system-information tools (fastfetch, starship, ...): a left
//! column (a logo) and a right column (the information) laid out and animated together.
//! The animation is computed as frames; writing them out is left to the caller.

use vstd::prelude::*;
use rand::rngs::SmallRng;
use crate::animator::{
    animation_of, cell_pad_of, column_frames_ok, noise_code_ok, cell_text_of, frames_bytes, frames_view, layout_of, layout_fits,
    lemma_layout_fits, lemma_layout_scrambles, scrambles_any, plan_columns, prepare_columns, prepared_columns,
    slice_to_vec, trimmed_columns, write_frames, AnimConfig, ColumnAnimation, ColumnLayout,
};
use crate::cli::VAlign;
use crate::layout::{
    cell_padding, cell_text, columns_view, layout_height, parse_markers_spec, segments_view, strings_view,
    widths_fit,
};
use crate::rng::new_rng;

verus! {

/// A run of a line of the right column (or the logo): shown as is, or scrambled first.
#[derive(Debug, PartialEq)]
pub enum Segment {
    Static(String),
    Scrambled(String),
}

impl View for Segment {
    /// Whether the segment is scrambled, and its text.
    type V = (bool, Seq<char>);

    open spec fn view(&self) -> (bool, Seq<char>) {
        match self {
            Segment::Static(t) => (false, t@),
            Segment::Scrambled(t) => (true, t@),
        }
    }
}

/// The views of a list of segments.
pub open spec fn segment_views(segs: Seq<Segment>) -> Seq<(bool, Seq<char>)> {
    segs.map_values(|g: Segment| g@)
}

/// Parse a line into static and scrambled segments.
/// Text enclosed in `marker` characters is scrambled; the rest is static.
/// Marker characters are stripped from the output.
pub fn parse_markers(line: &str, marker: char) -> (r: Vec<Segment>)
    ensures
        segment_views(r@) == parse_markers_spec(line@, marker),
{
    let parsed = crate::layout::parse_markers(line, marker);
    let mut r: Vec<Segment> = Vec::new();
    let mut k: usize = 0;
    while k < parsed.len()
        invariant
            k <= parsed@.len(),
            segments_view(parsed@) == parse_markers_spec(line@, marker),
            segment_views(r@) == segments_view(parsed@).take(k as int),
        decreases parsed@.len() - k,
    {
        let seg = match &parsed[k] {
            crate::layout::Segment::Static(t) => Segment::Static(t.clone()),
            crate::layout::Segment::Scrambled(t) => Segment::Scrambled(t.clone()),
        };
        let ghost before = r@;
        r.push(seg);
        assert(segment_views(r@) == segment_views(before).push(parsed@[k as int]@));
        assert(segments_view(parsed@).take(k + 1) == segments_view(parsed@).take(k as int).push(
            parsed@[k as int]@,
        ));
        k = k + 1;
    }
    assert(segments_view(parsed@).take(parsed@.len() as int) == segments_view(parsed@));
    r
}

/// The two sides as the columns of a layout.
pub open spec fn side_columns(left: Seq<Seq<char>>, right: Seq<Seq<char>>) -> Seq<Seq<Seq<char>>> {
    seq![left, right]
}

/// One row of a side-by-side layout: the left line (empty past the left's end), the spaces
/// that bring it to the widest left line plus `gap`, and the right line (empty past its end).
pub open spec fn side_row_ok(
    left: Seq<Seq<char>>,
    right: Seq<Seq<char>>,
    gap: int,
    marker: char,
    i: int,
    row: (String, usize, String),
) -> bool {
    let cols = side_columns(left, right);
    &&& row.0@ == cell_text(cols, i, 0)
    &&& row.1 == cell_padding(cols, gap, marker, i, 0)
    &&& row.2@ == cell_text(cols, i, 1)
}

/// The two cells of a composed row as a `(left, padding, right)` triple.
fn side_triple(cells: &Vec<(String, usize)>) -> (t: (String, usize, String))
    requires
        cells@.len() == 2,
    ensures
        t.0@ == cells@[0].0@,
        t.1 == cells@[0].1,
        t.2@ == cells@[1].0@,
{
    let left = cell_text_of(&cells[0]).clone();
    let pad = cell_pad_of(&cells[0]);
    let right = cell_text_of(&cells[1]).clone();
    (left, pad, right)
}

/// Pair left and right column lines with computed per-row padding.
/// Returns `Vec<(left_raw, padding_spaces, right_raw)>`.
/// The shorter column is padded with empty strings to match the taller column.
pub fn compose_layout(left: &[String], right: &[String], gap: usize, marker: char) -> (r: Vec<(String, usize, String)>)
    requires
        widths_fit(side_columns(strings_view(left@), strings_view(right@)), gap as int, marker),
    ensures
        r@.len() == layout_height(side_columns(strings_view(left@), strings_view(right@))),
        forall|i: int|
            0 <= i < r@.len() ==> side_row_ok(strings_view(left@), strings_view(right@), gap as int, marker, i, #[trigger] r@[i]),
{
    let ghost sides = side_columns(strings_view(left@), strings_view(right@));
    let mut cols: Vec<Vec<String>> = Vec::new();
    cols.push(slice_to_vec(left));
    cols.push(slice_to_vec(right));
    assert(columns_view(cols@) == sides);
    let rows = crate::layout::compose_layout(cols.as_slice(), gap, marker);
    let mut r: Vec<(String, usize, String)> = Vec::new();
    let mut i: usize = 0;
    while i < rows.len()
        invariant
            i <= rows@.len(),
            rows@.len() == layout_height(sides),
            sides == side_columns(strings_view(left@), strings_view(right@)),
            forall|row: int|
                0 <= row < rows@.len() ==> crate::layout::layout_row_ok(sides, gap as int, marker, row, #[trigger] rows@[row]@),
            r@.len() == i,
            forall|k: int| 0 <= k < i ==> side_row_ok(strings_view(left@), strings_view(right@), gap as int, marker, k, #[trigger] r@[k]),
        decreases rows@.len() - i,
    {
        assert(crate::layout::layout_row_ok(sides, gap as int, marker, i as int, rows@[i as int]@));
        let t = side_triple(&rows[i]);
        r.push(t);
        i = i + 1;
    }
    r
}

/// `a` animates `left` beside `right`, through the layout `lay`, with colour code `fg`:
/// each side without its trailing visually empty lines, the left padded to its widest line
/// plus `gap`, and every character of a marked region scrambled.
pub open spec fn side_animation_ok(
    left: Seq<Seq<char>>,
    right: Seq<Seq<char>>,
    gap: int,
    marker: char,
    config: AnimConfig,
    lay: ColumnLayout,
    a: ColumnAnimation,
    fg: Seq<char>,
) -> bool {
    &&& layout_of(lay, trimmed_columns(side_columns(left, right), marker), gap, marker, false)
    &&& animation_of(lay, config, a, fg, false)
}

/// The frames of the side-by-side animation of `left_lines` beside `right_lines`.
pub fn side_by_side_frames(
    left_lines: &[String],
    right_lines: &[String],
    gap: usize,
    marker: char,
    config: &AnimConfig,
    rng: &mut SmallRng,
) -> (a: ColumnAnimation)
    requires
        config.scrambles_min <= config.scrambles_max || !scrambles_any(
            trimmed_columns(side_columns(strings_view(left_lines@), strings_view(right_lines@)), marker),
            marker,
            false,
        ),
        layout_fits(
            trimmed_columns(side_columns(strings_view(left_lines@), strings_view(right_lines@)), marker),
            gap as int,
            marker,
            config.scrambles_max as int,
            false,
        ),
    ensures
        exists|lay: ColumnLayout, fg: Seq<char>|
            side_animation_ok(strings_view(left_lines@), strings_view(right_lines@), gap as int, marker, *config, lay, a, fg),
{
    let ghost sides = side_columns(strings_view(left_lines@), strings_view(right_lines@));
    let ghost prep = trimmed_columns(sides, marker);
    let mut cols: Vec<Vec<String>> = Vec::new();
    cols.push(slice_to_vec(left_lines));
    cols.push(slice_to_vec(right_lines));
    proof {
        assert(columns_view(cols@) == sides);
        assert(prepared_columns(sides, VAlign::Top, None, gap as int, marker) == prep);
    }
    let lay = prepare_columns(cols.as_slice(), gap, marker, VAlign::Top, None, false);
    proof {
        lemma_layout_fits(lay, prep, gap as int, marker, config.scrambles_max as int, false);
        lemma_layout_scrambles(lay, prep, gap as int, marker, false);
    }
    let ghost lay_copy = lay;
    let a = plan_columns(lay, config, false, rng);
    proof {
        if lay_copy.cells@.len() > 0 {
            let fg = choose|fg: Seq<char>|
                noise_code_ok(config.color, fg) && column_frames_ok(
                    a.rows@,
                    a.paddings@,
                    a.total_frames as int,
                    config.charset,
                    fg,
                    frames_view(a.frames@),
                );
            assert(side_animation_ok(strings_view(left_lines@), strings_view(right_lines@), gap as int, marker, *config, lay_copy, a, fg));
        } else {
            assert(side_animation_ok(strings_view(left_lines@), strings_view(right_lines@), gap as int, marker, *config, lay_copy, a, seq![]));
        }
    }
    a
}

/// Writes the whole side-by-side animation of `left_lines` beside `right_lines` to `out`,
/// frame after frame, without pausing.
pub fn animate_side_by_side(
    left_lines: &[String],
    right_lines: &[String],
    gap: usize,
    marker: char,
    config: &AnimConfig,
    out: &mut Vec<u8>,
)
    requires
        config.scrambles_min <= config.scrambles_max || !scrambles_any(
            trimmed_columns(side_columns(strings_view(left_lines@), strings_view(right_lines@)), marker),
            marker,
            false,
        ),
        layout_fits(
            trimmed_columns(side_columns(strings_view(left_lines@), strings_view(right_lines@)), marker),
            gap as int,
            marker,
            config.scrambles_max as int,
            false,
        ),
    ensures
        exists|lay: ColumnLayout, a: ColumnAnimation, fg: Seq<char>|
            side_animation_ok(strings_view(left_lines@), strings_view(right_lines@), gap as int, marker, *config, lay, a, fg)
                && final(out)@ == old(out)@ + frames_bytes(frames_view(a.frames@)),
{
    let mut rng = new_rng();
    let a = side_by_side_frames(left_lines, right_lines, gap, marker, config, &mut rng);
    write_frames(&a.frames, out);
}

} // verus!
