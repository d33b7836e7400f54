//! Frame-by-frame scramble animations: a single string, and side-by-side columns.
//! Frames are computed here; pausing between them is left to the caller.

use std::time::Duration;
use vstd::prelude::*;
use rand::rngs::SmallRng;
use crate::ansi::{
    terminal_width,
    move_up, up_seq,
    column_seq, fg_code_ok, hide_cursor, hide_seq, move_to_column, reset_color, reset_seq, set_foreground,
    show_cursor, show_seq,
};
use crate::charset::{in_charset, random_char, ResolvedCharSet};
use crate::cli::{AnsiColor, VAlign};
use crate::rng::{new_rng, random_in, shuffle_indices};
use crate::layout::{
    split_at_markers,
    chars_with_ansi_context, context_from, context_view,
    cell_padding, cell_text, compose_layout, keep_sgr_from, parse_markers, parse_markers_spec, segments_view,
    strip_ansi, strip_ansi_spec, strip_cursor_codes, widths_fit, Segment,
    columns_view, content_end, layout_height, max_width_of, strings_view, trim_trailing_empty, truncate_from,
    truncate_to_visual_width, visual_width, visual_width_spec, column_max_width, columns_height,
};
use crate::text::{chars_of, is_white_space, is_whitespace};
use vstd::utf8::encode_utf8;

pub use crate::cli::RevealOrder;

verus! {

/// How an animation looks and paces itself.
pub struct AnimConfig {
    pub speed: Duration,
    pub color: AnsiColor,
    pub charset: ResolvedCharSet,
    pub order: RevealOrder,
    pub scrambles_min: u32,
    pub scrambles_max: u32,
    pub valign: VAlign,
}

/// The 256-colour palette index crossterm writes for the colour that `color` names
/// (black, dark red, dark green, dark yellow, dark blue, dark magenta, dark cyan, white);
/// none for `Match`, which draws noise in each character's own colour.
pub open spec fn palette_index(color: AnsiColor) -> Option<u8> {
    match color {
        AnsiColor::Black => Some(0),
        AnsiColor::Red => Some(1),
        AnsiColor::Green => Some(2),
        AnsiColor::Yellow => Some(3),
        AnsiColor::Blue => Some(4),
        AnsiColor::Magenta => Some(5),
        AnsiColor::Cyan => Some(6),
        AnsiColor::White => Some(15),
        AnsiColor::Match => None,
    }
}

/// The terminal palette index of `color`, if it names one.
pub fn to_crossterm_color(color: &AnsiColor) -> (v: Option<u8>)
    ensures
        v == palette_index(*color),
{
    match color {
        AnsiColor::Black => Some(0),
        AnsiColor::Red => Some(1),
        AnsiColor::Green => Some(2),
        AnsiColor::Yellow => Some(3),
        AnsiColor::Blue => Some(4),
        AnsiColor::Magenta => Some(5),
        AnsiColor::Cyan => Some(6),
        AnsiColor::White => Some(15),
        AnsiColor::Match => None,
    }
}

/// `code` is what switches to the noise colour `color`: the foreground code of its palette
/// colour, or nothing for `Match`.
pub open spec fn noise_code_ok(color: AnsiColor, code: Seq<char>) -> bool {
    match palette_index(color) {
        Some(v) => fg_code_ok(v, code),
        None => code == Seq::<char>::empty(),
    }
}

/// The code that switches to the noise colour `color`.
fn noise_code(color: &AnsiColor) -> (r: String)
    ensures
        noise_code_ok(*color, r@),
{
    match to_crossterm_color(color) {
        Some(v) => set_foreground(v),
        None => String::new(),
    }
}

/// The order in which characters lock: the candidates as given for `Ordered`, a random
/// permutation of them for `Random`.
pub fn build_schedule(candidate_indices: Vec<usize>, order: RevealOrder, rng: &mut SmallRng) -> (r: Vec<usize>)
    ensures
        r@.len() == candidate_indices@.len(),
        r@.to_multiset() == candidate_indices@.to_multiset(),
        order == RevealOrder::Ordered ==> r@ == candidate_indices@,
{
    let mut indices = candidate_indices;
    if order == RevealOrder::Random {
        shuffle_indices(&mut indices, rng);
    }
    indices
}

// ── Single-string animation ──────────────────────────────────────────────────

/// Positions of the characters of `chars` that are not white space, in increasing order.
pub open spec fn non_space_indices(chars: Seq<char>) -> Seq<usize>
    decreases chars.len(),
{
    if chars.len() == 0 {
        seq![]
    } else {
        non_space_indices(chars.drop_last()) + if is_white_space(chars.last()) {
            seq![]
        } else {
            seq![(chars.len() - 1) as usize]
        }
    }
}

/// The positions of `chars` that are locked once the schedule entries `done` have locked.
pub open spec fn locked_mask(done: Seq<usize>, n: nat) -> Seq<bool> {
    Seq::new(n, |j: int| done.contains(j as usize))
}

/// `row` shows `chars`: white space and locked positions as they are, every other
/// position as a noise character of `set`.
pub open spec fn row_shows(row: Seq<char>, chars: Seq<char>, locked: Seq<bool>, set: ResolvedCharSet) -> bool {
    &&& row.len() == chars.len()
    &&& locked.len() == chars.len()
    &&& forall|j: int|
        0 <= j < chars.len() ==> if is_white_space(chars[j]) || locked[j] {
            #[trigger] row[j] == chars[j]
        } else {
            in_charset(row[j], set)
        }
}

/// `frame` is `lead` followed by a row that shows `chars` with `locked` positions real.
pub open spec fn frame_shows(
    frame: Seq<char>,
    lead: Seq<char>,
    chars: Seq<char>,
    locked: Seq<bool>,
    set: ResolvedCharSet,
) -> bool {
    &&& frame.len() >= lead.len()
    &&& frame.subrange(0, lead.len() as int) == lead
    &&& row_shows(frame.subrange(lead.len() as int, frame.len() as int), chars, locked, set)
}

/// Sum of the first `p` counts.
pub open spec fn prefix_sum(counts: Seq<usize>, p: int) -> int
    decreases p,
{
    if p <= 0 {
        0
    } else {
        prefix_sum(counts, p - 1) + counts[p - 1]
    }
}

/// The frames of the animation of `chars` under `config`, locking in the order `schedule`,
/// with `scrambles[p]` noise frames before `schedule[p]` locks, and `fg` as colour code:
/// an opening frame (cursor hidden) with every non-space position noise; for each
/// schedule entry its noise frames, with the entries before it locked; a closing frame
/// with the real text, colours reset, cursor shown and a newline.
pub open spec fn text_frames_ok(
    chars: Seq<char>,
    config: AnimConfig,
    schedule: Seq<usize>,
    scrambles: Seq<usize>,
    fg: Seq<char>,
    frames: Seq<Seq<char>>,
) -> bool {
    let lead = column_seq(0) + fg;
    let n = chars.len();
    &&& noise_code_ok(config.color, fg)
    &&& schedule.to_multiset() == non_space_indices(chars).to_multiset()
    &&& config.order == RevealOrder::Ordered ==> schedule == non_space_indices(chars)
    &&& scrambles.len() == schedule.len()
    &&& forall|p: int|
        0 <= p < scrambles.len() ==> config.scrambles_min <= #[trigger] scrambles[p] <= config.scrambles_max
    &&& frames.len() == 2 + prefix_sum(scrambles, scrambles.len() as int)
    &&& frame_shows(frames[0], hide_seq() + lead, chars, locked_mask(seq![], n), config.charset)
    &&& forall|p: int, r: int|
        0 <= p < schedule.len() && 0 <= r < scrambles[p] ==> frame_shows(
            #[trigger] frames[1 + prefix_sum(scrambles, p) + r],
            lead,
            chars,
            locked_mask(schedule.take(p), n),
            config.charset,
        )
    &&& frames.last() == lead + chars + reset_seq() + show_seq() + seq!['\n']
}

/// The views of a list of frames.
pub open spec fn frames_view(frames: Seq<String>) -> Seq<Seq<char>> {
    frames.map_values(|f: String| f@)
}

/// The schedule and frames of a single-string animation.
pub struct TextAnimation {
    /// Positions in the order they lock.
    pub schedule: Vec<usize>,
    /// Noise frames shown before each scheduled position locks.
    pub scrambles: Vec<usize>,
    /// What to write, one frame after another.
    pub frames: Vec<String>,
}

pub proof fn lemma_frame_shows(lead: Seq<char>, row: Seq<char>, chars: Seq<char>, locked: Seq<bool>, set: ResolvedCharSet)
    requires
        row_shows(row, chars, locked, set),
    ensures
        frame_shows(lead + row, lead, chars, locked, set),
{
    assert((lead + row).subrange(0, lead.len() as int) == lead);
    assert((lead + row).subrange(lead.len() as int, (lead + row).len() as int) == row);
}

/// One row of the animation: white space and locked positions real, the rest noise.
fn render_text_row(chars: &Vec<char>, locked: &Vec<bool>, set: ResolvedCharSet, rng: &mut SmallRng) -> (row: String)
    requires
        locked@.len() == chars@.len(),
    ensures
        row_shows(row@, chars@, locked@, set),
{
    let mut row = String::new();
    let mut i: usize = 0;
    while i < chars.len()
        invariant
            i <= chars@.len(),
            locked@.len() == chars@.len(),
            row@.len() == i,
            forall|j: int|
                0 <= j < i ==> if is_white_space(chars@[j]) || locked@[j] {
                    #[trigger] row@[j] == chars@[j]
                } else {
                    in_charset(row@[j], set)
                },
        decreases chars@.len() - i,
    {
        let c = chars[i];
        if is_whitespace(c) || locked[i] {
            row.push(c);
        } else {
            let noise = random_char(set, rng);
            row.push(noise);
        }
        i = i + 1;
    }
    row
}

/// `a` followed by `b`.
fn concat(a: &String, b: &String) -> (r: String)
    ensures
        r@ == a@ + b@,
{
    let mut r = a.clone();
    r.append(b.as_str());
    r
}

/// The positions of `chars` that are not white space.
fn non_space_positions(chars: &Vec<char>) -> (r: Vec<usize>)
    ensures
        r@ == non_space_indices(chars@),
        forall|k: int| 0 <= k < r@.len() ==> #[trigger] r@[k] < chars@.len(),
{
    let mut r: Vec<usize> = Vec::new();
    let mut i: usize = 0;
    while i < chars.len()
        invariant
            i <= chars@.len(),
            r@ == non_space_indices(chars@.take(i as int)),
            forall|k: int| 0 <= k < r@.len() ==> #[trigger] r@[k] < i,
        decreases chars@.len() - i,
    {
        assert(chars@.take(i + 1).drop_last() == chars@.take(i as int));
        if !is_whitespace(chars[i]) {
            r.push(i);
        }
        i = i + 1;
    }
    assert(chars@.take(chars@.len() as int) == chars@);
    r
}

pub proof fn lemma_non_space_members(chars: Seq<char>, k: int)
    requires
        0 <= k < non_space_indices(chars).len(),
    ensures
        non_space_indices(chars)[k] < chars.len(),
    decreases chars.len(),
{
    let prev = non_space_indices(chars.drop_last());
    if k < prev.len() {
        lemma_non_space_members(chars.drop_last(), k);
    }
}

pub proof fn lemma_permutation_bounded(s: Seq<usize>, t: Seq<usize>, n: nat)
    requires
        s.to_multiset() == t.to_multiset(),
        forall|k: int| 0 <= k < t.len() ==> #[trigger] t[k] < n,
    ensures
        forall|k: int| 0 <= k < s.len() ==> #[trigger] s[k] < n,
{
    s.to_multiset_ensures();
    t.to_multiset_ensures();
    assert forall|k: int| 0 <= k < s.len() implies #[trigger] s[k] < n by {
        assert(s.contains(s[k]));
        assert(s.to_multiset().count(s[k]) > 0);
        assert(t.contains(s[k]));
        let j = choose|j: int| 0 <= j < t.len() && t[j] == s[k];
        assert(t[j] < n);
    }
}

/// `n` positions, none locked.
fn unlocked(n: usize) -> (v: Vec<bool>)
    ensures
        v@ == locked_mask(seq![], n as nat),
{
    let mut v: Vec<bool> = Vec::new();
    let mut i: usize = 0;
    while i < n
        invariant
            i <= n,
            v@.len() == i,
            forall|j: int| 0 <= j < i ==> !#[trigger] v@[j],
        decreases n - i,
    {
        v.push(false);
        i = i + 1;
    }
    assert(v@ == locked_mask(seq![], n as nat));
    v
}

/// The schedule and frames of the animation of `text`: noise settles into the real
/// characters one position at a time, in the order of the schedule.
pub fn plan_animation(text: &str, config: &AnimConfig, rng: &mut SmallRng) -> (a: TextAnimation)
    requires
        non_space_indices(text@).len() > 0 ==> config.scrambles_min <= config.scrambles_max,
    ensures
        text@.len() == 0 ==> a.frames@.len() == 0,
        text@.len() > 0 ==> exists|fg: Seq<char>|
            text_frames_ok(text@, *config, a.schedule@, a.scrambles@, fg, frames_view(a.frames@)),
{
    let chars = chars_of(text);
    let n = chars.len();
    if n == 0 {
        return TextAnimation { schedule: Vec::new(), scrambles: Vec::new(), frames: Vec::new() };
    }
    let fg = noise_code(&config.color);
    let col0 = move_to_column(0);
    let lead = concat(&col0, &fg);
    let non_ws = non_space_positions(&chars);
    let schedule = build_schedule(non_ws, config.order, rng);
    proof {
        lemma_permutation_bounded(schedule@, non_space_indices(chars@), n as nat);
    }
    let ghost set = config.charset;
    let mut locked = unlocked(n);
    let mut frames: Vec<String> = Vec::new();
    let first_row = render_text_row(&chars, &locked, config.charset, rng);
    let hide = hide_cursor();
    let opening = concat(&concat(&hide, &lead), &first_row);
    proof {
        lemma_frame_shows(hide@ + lead@, first_row@, chars@, locked@, set);
    }
    frames.push(opening);
    let mut scrambles: Vec<usize> = Vec::new();
    let mut p: usize = 0;
    while p < schedule.len()
        invariant
            p <= schedule@.len(),
            n == chars@.len(),
            chars@ == text@,
            set == config.charset,
            lead@ == column_seq(0) + fg@,
            forall|k: int| 0 <= k < schedule@.len() ==> #[trigger] schedule@[k] < n,
            non_space_indices(chars@).len() > 0 ==> config.scrambles_min <= config.scrambles_max,
            schedule@.to_multiset() == non_space_indices(chars@).to_multiset(),
            locked@ == locked_mask(schedule@.take(p as int), n as nat),
            scrambles@.len() == p,
            forall|q: int|
                0 <= q < scrambles@.len() ==> config.scrambles_min <= #[trigger] scrambles@[q] <= config.scrambles_max,
            frames@.len() == 1 + prefix_sum(scrambles@, p as int),
            frame_shows(frames@[0]@, hide_seq() + lead@, chars@, locked_mask(seq![], n as nat), set),
            forall|q: int, r: int|
                0 <= q < p && 0 <= r < scrambles@[q] ==> frame_shows(
                    #[trigger] frames@[1 + prefix_sum(scrambles@, q) + r]@,
                    lead@,
                    chars@,
                    locked_mask(schedule@.take(q), n as nat),
                    set,
                ),
        decreases schedule@.len() - p,
    {
        proof {
            schedule@.to_multiset_ensures();
            non_space_indices(chars@).to_multiset_ensures();
        }
        let k = random_in(rng, config.scrambles_min as usize, config.scrambles_max as usize);
        let ghost before = scrambles@;
        proof {
            assert forall|a: int, b: int| 0 <= a <= b <= p implies 0 <= #[trigger] prefix_sum(before, a) <= #[trigger] prefix_sum(before, b) by {
                lemma_prefix_sum_mono(before, a, b);
            }
            assert forall|q: int| 0 <= q < p implies #[trigger] prefix_sum(before, q) + before[q] <= prefix_sum(before, p as int) by {
                lemma_prefix_sum_mono(before, q + 1, p as int);
            }
        }
        scrambles.push(k);
        assert forall|q: int| 0 <= q <= p implies prefix_sum(scrambles@, q) == prefix_sum(before, q) by {
            lemma_prefix_sum_push(before, k, q);
        }
        let ghost mask = locked@;
        let mut r: usize = 0;
        while r < k
            invariant
                r <= k,
                n == chars@.len(),
                lead@ == column_seq(0) + fg@,
                locked@ == mask,
                mask == locked_mask(schedule@.take(p as int), n as nat),
                scrambles@ == before.push(k),
                before.len() == p,
                set == config.charset,
                forall|a: int, b: int| 0 <= a <= b <= p ==> 0 <= #[trigger] prefix_sum(before, a) <= #[trigger] prefix_sum(before, b),
                forall|q: int| 0 <= q < p ==> #[trigger] prefix_sum(before, q) + before[q] <= prefix_sum(before, p as int),
                frames@.len() == 1 + prefix_sum(before, p as int) + r,
                forall|q: int| 0 <= q <= p ==> prefix_sum(scrambles@, q) == prefix_sum(before, q),
                frame_shows(frames@[0]@, hide_seq() + lead@, chars@, locked_mask(seq![], n as nat), set),
                forall|q: int, r2: int|
                    0 <= q < p && 0 <= r2 < before[q] ==> frame_shows(
                        #[trigger] frames@[1 + prefix_sum(before, q) + r2]@,
                        lead@,
                        chars@,
                        locked_mask(schedule@.take(q), n as nat),
                        set,
                    ),
                forall|r2: int|
                    0 <= r2 < r ==> frame_shows(
                        #[trigger] frames@[1 + prefix_sum(before, p as int) + r2]@,
                        lead@,
                        chars@,
                        mask,
                        set,
                    ),
            decreases k - r,
        {
            let row = render_text_row(&chars, &locked, config.charset, rng);
            proof {
                lemma_frame_shows(lead@, row@, chars@, locked@, set);
            }
            frames.push(concat(&lead, &row));
            r = r + 1;
        }
        proof {
            lemma_prefix_sum_push(before, k, p as int + 1);
            assert forall|q: int, r2: int|
                0 <= q < p + 1 && 0 <= r2 < scrambles@[q] implies frame_shows(
                    #[trigger] frames@[1 + prefix_sum(scrambles@, q) + r2]@,
                    lead@,
                    chars@,
                    locked_mask(schedule@.take(q), n as nat),
                    set,
                ) by {
                if q < p {
                    assert(scrambles@[q] == before[q]);
                    assert(prefix_sum(scrambles@, q) == prefix_sum(before, q));
                    assert(frame_shows(
                        frames@[1 + prefix_sum(before, q) + r2]@,
                        lead@,
                        chars@,
                        locked_mask(schedule@.take(q), n as nat),
                        set,
                    ));
                } else {
                    assert(prefix_sum(scrambles@, q) == prefix_sum(before, q));
                    assert(frame_shows(frames@[1 + prefix_sum(before, p as int) + r2]@, lead@, chars@, mask, set));
                }
            }
        }
        let idx = schedule[p];
        locked.set(idx, true);
        proof {
            let prev = schedule@.take(p as int);
            assert(schedule@.take(p + 1) == prev.push(idx));
            assert forall|j: int| 0 <= j < n implies #[trigger] locked@[j] == locked_mask(schedule@.take(p + 1), n as nat)[j] by {
                let ju = j as usize;
                if prev.push(idx).contains(ju) {
                    let w = choose|w: int| 0 <= w < prev.push(idx).len() && prev.push(idx)[w] == ju;
                    if w < prev.len() {
                        assert(prev[w] == ju);
                        assert(prev.contains(ju));
                    }
                }
                if prev.contains(ju) {
                    let w = choose|w: int| 0 <= w < prev.len() && prev[w] == ju;
                    assert(prev.push(idx)[w] == ju);
                }
                if ju == idx {
                    assert(prev.push(idx)[prev.len() as int] == ju);
                }
            }
            assert(locked@ == locked_mask(schedule@.take(p + 1), n as nat));
        }
        p = p + 1;
    }
    let reset = reset_color();
    let show = show_cursor();
    let mut closing = concat(&lead, &chars_to_string(&chars));
    closing.append(reset.as_str());
    closing.append(show.as_str());
    closing.push('\n');
    let ghost body = frames@;
    let ghost last = closing;
    frames.push(closing);
    proof {
        assert(frames@ == body.push(last));
        assert(schedule@.take(schedule@.len() as int) == schedule@);
        let fv = frames_view(frames@);
        let len = schedule@.len() as int;
        lemma_prefix_sum_mono(scrambles@, 0, len);
        assert(fv.len() == 2 + prefix_sum(scrambles@, len));
        assert(fv[0] == frames@[0]@);
        assert(frames@[0] == body[0]);
        assert(fv.last() == frames@.last()@);
        assert forall|q: int, r: int| 0 <= q < len && 0 <= r < scrambles@[q] implies frame_shows(
            #[trigger] fv[1 + prefix_sum(scrambles@, q) + r],
            column_seq(0) + fg@,
            text@,
            locked_mask(schedule@.take(q), text@.len()),
            config.charset,
        ) by {
            lemma_prefix_sum_mono(scrambles@, q + 1, len);
            lemma_prefix_sum_mono(scrambles@, q, len);
            let idx = 1 + prefix_sum(scrambles@, q) + r;
            assert(prefix_sum(scrambles@, q + 1) == prefix_sum(scrambles@, q) + scrambles@[q]);
            assert(idx < body.len());
            assert(frame_shows(body[idx]@, lead@, chars@, locked_mask(schedule@.take(q), n as nat), set));
            assert(body.push(last)[idx] == body[idx]);
        }
        assert(noise_code_ok(config.color, fg@));
        assert(schedule@.to_multiset() == non_space_indices(text@).to_multiset());
        assert(config.order == RevealOrder::Ordered ==> schedule@ == non_space_indices(text@));
        assert(frame_shows(fv[0], hide_seq() + (column_seq(0) + fg@), text@, locked_mask(seq![], text@.len()), config.charset));
        assert(fv.last() == (column_seq(0) + fg@) + text@ + reset_seq() + show_seq() + seq!['\n']);
        assert(text_frames_ok(text@, *config, schedule@, scrambles@, fg@, frames_view(frames@)));
    }
    let ghost fgv = fg@;
    let a = TextAnimation { schedule, scrambles, frames };
    assert(text_frames_ok(text@, *config, a.schedule@, a.scrambles@, fgv, frames_view(a.frames@)));
    a
}

pub proof fn lemma_prefix_sum_mono(s: Seq<usize>, a: int, b: int)
    requires
        0 <= a <= b <= s.len(),
    ensures
        0 <= prefix_sum(s, a) <= prefix_sum(s, b),
    decreases b,
{
    if a < b {
        lemma_prefix_sum_mono(s, a, b - 1);
    } else if a > 0 {
        lemma_prefix_sum_mono(s, 0, a - 1);
    }
}

pub proof fn lemma_prefix_sum_push(s: Seq<usize>, x: usize, q: int)
    requires
        0 <= q <= s.len() + 1,
    ensures
        q <= s.len() ==> prefix_sum(s.push(x), q) == prefix_sum(s, q),
        q == s.len() + 1 ==> prefix_sum(s.push(x), q) == prefix_sum(s, s.len() as int) + x,
    decreases q,
{
    if q > 0 {
        lemma_prefix_sum_push(s, x, q - 1);
    }
}

/// The string of the characters `chars`.
fn chars_to_string(chars: &Vec<char>) -> (r: String)
    ensures
        r@ == chars@,
{
    let mut r = String::new();
    let mut i: usize = 0;
    while i < chars.len()
        invariant
            i <= chars@.len(),
            r@ == chars@.take(i as int),
        decreases chars@.len() - i,
    {
        r.push(chars[i]);
        assert(chars@.take(i + 1) == chars@.take(i as int).push(chars@[i as int]));
        i = i + 1;
    }
    assert(chars@.take(chars@.len() as int) == chars@);
    r
}

/// The UTF-8 bytes of `frames`, one after another.
pub open spec fn frames_bytes(frames: Seq<Seq<char>>) -> Seq<u8>
    decreases frames.len(),
{
    if frames.len() == 0 {
        seq![]
    } else {
        frames_bytes(frames.drop_last()) + encode_utf8(frames.last())
    }
}

/// Appends the UTF-8 bytes of every frame to `out`, in order.
pub fn write_frames(frames: &Vec<String>, out: &mut Vec<u8>)
    ensures
        final(out)@ == old(out)@ + frames_bytes(frames_view(frames@)),
{
    let mut i: usize = 0;
    while i < frames.len()
        invariant
            i <= frames@.len(),
            out@ == old(out)@ + frames_bytes(frames_view(frames@.take(i as int))),
        decreases frames@.len() - i,
    {
        let bytes = frames[i].as_str().as_bytes();
        let ghost mid = out@;
        out.extend_from_slice(bytes);
        proof {
            assert(out@ == mid + bytes@);
            assert(frames_view(frames@.take(i + 1)).drop_last() == frames_view(frames@.take(i as int)));
            assert(frames_view(frames@.take(i + 1)).last() == frames@[i as int]@);
        }
        i = i + 1;
    }
    assert(frames@.take(frames@.len() as int) == frames@);
}

/// Writes the whole animation of `text` to `out`, frame after frame, without pausing.
pub fn animate(text: &str, config: &AnimConfig, out: &mut Vec<u8>)
    requires
        non_space_indices(text@).len() > 0 ==> config.scrambles_min <= config.scrambles_max,
    ensures
        text@.len() == 0 ==> final(out)@ == old(out)@,
        text@.len() > 0 ==> exists|schedule: Seq<usize>, scrambles: Seq<usize>, fg: Seq<char>, frames: Seq<Seq<char>>|
            text_frames_ok(text@, *config, schedule, scrambles, fg, frames) && final(out)@ == old(out)@
                + frames_bytes(frames),
{
    if text.is_empty() {
        return;
    }
    let mut rng = new_rng();
    let a = plan_animation(text, config, &mut rng);
    write_frames(&a.frames, out);
}

// ── Multi-column animation ───────────────────────────────────────────────────

/// A character of a scrambled region, the frame from which it shows as itself, and the
/// ANSI codes just before it, re-emitted when it locks in to restore the colour it had.
pub struct ScrambleChar {
    pub actual: char,
    pub lock_frame: usize,
    pub color_before: String,
}

/// A segment ready to render: static text, or characters that lock in over the frames.
pub enum ReadySegment {
    Static(String),
    Scrambled(Vec<ScrambleChar>),
}

/// `sc` shows as itself at `frame`: it has locked, or it is white space.
pub open spec fn shows_real(sc: ScrambleChar, frame: int) -> bool {
    sc.lock_frame <= frame || is_white_space(sc.actual)
}

/// The text of scrambled characters at `frame`, starting with the noise colour on or off
/// (`anim`) and drawing noise from `noise[k..]`: the text, whether the noise colour is on
/// at the end, and the index of the next unused noise character. Locked characters switch
/// the noise colour off (if on) and show their preceding codes and themselves; the others
/// switch it on (if off) and show the next noise character. With no noise colour (`fg`
/// empty, for `Match`) nothing is switched: a character not yet locked shows its
/// preceding codes and the next noise character, in the colour it would have itself.
pub open spec fn render_chars(
    cs: Seq<ScrambleChar>,
    frame: int,
    anim: bool,
    noise: Seq<char>,
    k: int,
    fg: Seq<char>,
) -> (Seq<char>, bool, int)
    decreases cs.len(),
{
    if cs.len() == 0 {
        (seq![], anim, k)
    } else {
        let (o, a, k1) = render_chars(cs.drop_last(), frame, anim, noise, k, fg);
        let sc = cs.last();
        if shows_real(sc, frame) {
            (o + (if a { reset_seq() } else { seq![] }) + sc.color_before@ + seq![sc.actual], false, k1)
        } else if fg.len() == 0 {
            (o + sc.color_before@ + seq![noise[k1]], a, k1 + 1)
        } else {
            (o + (if a { seq![] } else { fg }) + seq![noise[k1]], true, k1 + 1)
        }
    }
}

/// The text of a list of segments at `frame`, as `render_chars`; static text switches the
/// noise colour off (if on) and shows as it is.
pub open spec fn render_segs(
    segs: Seq<ReadySegment>,
    frame: int,
    anim: bool,
    noise: Seq<char>,
    k: int,
    fg: Seq<char>,
) -> (Seq<char>, bool, int)
    decreases segs.len(),
{
    if segs.len() == 0 {
        (seq![], anim, k)
    } else {
        let (o, a, k1) = render_segs(segs.drop_last(), frame, anim, noise, k, fg);
        match segs.last() {
            ReadySegment::Static(t) => (o + (if a { reset_seq() } else { seq![] }) + t@, false, k1),
            ReadySegment::Scrambled(cs) => {
                let (o2, a2, k2) = render_chars(cs@, frame, a, noise, k1, fg);
                (o + o2, a2, k2)
            },
        }
    }
}

/// `n` spaces.
pub open spec fn spaces(n: nat) -> Seq<char> {
    Seq::new(n, |i: int| ' ')
}

/// The text of one row of columns at `frame` (without its newline): each column's
/// segments, the noise colour switched off at its end, then its padding spaces.
pub open spec fn render_cols(
    cols: Seq<Vec<ReadySegment>>,
    pads: Seq<usize>,
    frame: int,
    noise: Seq<char>,
    k: int,
    fg: Seq<char>,
) -> (Seq<char>, int)
    decreases cols.len(),
{
    if cols.len() == 0 {
        (seq![], k)
    } else {
        let (o, k1) = render_cols(cols.drop_last(), pads, frame, noise, k, fg);
        let (o2, a2, k2) = render_segs(cols.last()@, frame, false, noise, k1, fg);
        (o + o2 + (if a2 { reset_seq() } else { seq![] }) + spaces(pads[cols.len() - 1] as nat), k2)
    }
}

/// Every character of `noise[from..to]` belongs to `set`.
pub open spec fn noise_in(noise: Seq<char>, from: int, to: int, set: ResolvedCharSet) -> bool {
    forall|j: int| from <= j < to ==> in_charset(#[trigger] noise[j], set)
}

/// Appends `sc` at `frame` to `out` as `render_chars` says, drawing noise when needed.
fn render_char(
    out: &mut String,
    sc: &ScrambleChar,
    frame: usize,
    charset: ResolvedCharSet,
    fg: &String,
    reset: &String,
    in_anim: &mut bool,
    noise: &mut Vec<char>,
    rng: &mut SmallRng,
)
    requires
        reset@ == reset_seq(),
    ensures
        final(noise)@.len() == old(noise)@.len() + if shows_real(*sc, frame as int) { 0int } else { 1int },
        final(noise)@.take(old(noise)@.len() as int) == old(noise)@,
        noise_in(final(noise)@, old(noise)@.len() as int, final(noise)@.len() as int, charset),
        shows_real(*sc, frame as int) ==> !*final(in_anim),
        shows_real(*sc, frame as int) ==> final(out)@ == old(out)@ + (if *old(in_anim) { reset_seq() } else { seq![] })
            + sc.color_before@ + seq![sc.actual],
        !shows_real(*sc, frame as int) && fg@.len() == 0 ==> *final(in_anim) == *old(in_anim) && final(out)@
            == old(out)@ + sc.color_before@ + seq![final(noise)@[old(noise)@.len() as int]],
        !shows_real(*sc, frame as int) && fg@.len() > 0 ==> *final(in_anim) && final(out)@ == old(out)@ + (if *old(
            in_anim,
        ) {
            seq![]
        } else {
            fg@
        }) + seq![final(noise)@[old(noise)@.len() as int]],
{
    if sc.lock_frame <= frame || is_whitespace(sc.actual) {
        if *in_anim {
            out.append(reset.as_str());
            *in_anim = false;
        }
        out.append(sc.color_before.as_str());
        out.push(sc.actual);
    } else {
        if fg.as_str().is_empty() {
            out.append(sc.color_before.as_str());
        } else if !*in_anim {
            out.append(fg.as_str());
            *in_anim = true;
        }
        let c = random_char(charset, rng);
        noise.push(c);
        out.push(c);
        assert(noise@.take(noise@.len() - 1) == old(noise)@);
    }
}

pub proof fn lemma_render_chars_noise(
    cs: Seq<ScrambleChar>,
    frame: int,
    anim: bool,
    n1: Seq<char>,
    n2: Seq<char>,
    k: int,
    fg: Seq<char>,
)
    requires
        0 <= k,
        n1.len() <= n2.len(),
        n2.take(n1.len() as int) == n1,
        render_chars(cs, frame, anim, n1, k, fg).2 <= n1.len(),
    ensures
        render_chars(cs, frame, anim, n2, k, fg) == render_chars(cs, frame, anim, n1, k, fg),
        k <= render_chars(cs, frame, anim, n1, k, fg).2,
    decreases cs.len(),
{
    if cs.len() > 0 {
        let r = render_chars(cs.drop_last(), frame, anim, n1, k, fg);
        lemma_render_chars_noise(cs.drop_last(), frame, anim, n1, n2, k, fg);
        if !shows_real(cs.last(), frame) {
            assert(n2.take(n1.len() as int)[r.2] == n2[r.2]);
        }
    }
}

pub proof fn lemma_render_chars_mono(cs: Seq<ScrambleChar>, frame: int, anim: bool, n: Seq<char>, k: int, fg: Seq<char>)
    ensures
        k <= render_chars(cs, frame, anim, n, k, fg).2,
    decreases cs.len(),
{
    if cs.len() > 0 {
        lemma_render_chars_mono(cs.drop_last(), frame, anim, n, k, fg);
    }
}

pub proof fn lemma_render_segs_noise(
    segs: Seq<ReadySegment>,
    frame: int,
    anim: bool,
    n1: Seq<char>,
    n2: Seq<char>,
    k: int,
    fg: Seq<char>,
)
    requires
        0 <= k,
        n1.len() <= n2.len(),
        n2.take(n1.len() as int) == n1,
        render_segs(segs, frame, anim, n1, k, fg).2 <= n1.len(),
    ensures
        render_segs(segs, frame, anim, n2, k, fg) == render_segs(segs, frame, anim, n1, k, fg),
        k <= render_segs(segs, frame, anim, n1, k, fg).2,
    decreases segs.len(),
{
    if segs.len() > 0 {
        let r = render_segs(segs.drop_last(), frame, anim, n1, k, fg);
        match segs.last() {
            ReadySegment::Static(t) => {
                lemma_render_segs_noise(segs.drop_last(), frame, anim, n1, n2, k, fg);
            },
            ReadySegment::Scrambled(cs) => {
                lemma_render_chars_mono(cs@, frame, r.1, n1, r.2, fg);
                lemma_render_segs_noise(segs.drop_last(), frame, anim, n1, n2, k, fg);
                lemma_render_chars_noise(cs@, frame, r.1, n1, n2, r.2, fg);
            },
        }
    }
}

/// Appends the scrambled characters `cs` at `frame`, as `render_chars` says.
#[verifier::spinoff_prover]
#[verifier::rlimit(40)]
fn render_scrambled(
    out: &mut String,
    cs: &Vec<ScrambleChar>,
    frame: usize,
    charset: ResolvedCharSet,
    fg: &String,
    reset: &String,
    in_anim: &mut bool,
    noise: &mut Vec<char>,
    rng: &mut SmallRng,
)
    requires
        reset@ == reset_seq(),
    ensures
        final(noise)@.len() >= old(noise)@.len(),
        final(noise)@.take(old(noise)@.len() as int) == old(noise)@,
        noise_in(final(noise)@, old(noise)@.len() as int, final(noise)@.len() as int, charset),
        ({
            let r = render_chars(cs@, frame as int, *old(in_anim), final(noise)@, old(noise)@.len() as int, fg@);
            &&& final(out)@ == old(out)@ + r.0
            &&& *final(in_anim) == r.1
            &&& r.2 == final(noise)@.len()
        }),
{
    let ghost out0 = out@;
    let ghost anim0 = *in_anim;
    let ghost noise0 = noise@;
    let mut i: usize = 0;
    while i < cs.len()
        invariant
            i <= cs@.len(),
            reset@ == reset_seq(),
            noise@.len() >= noise0.len(),
            noise@.take(noise0.len() as int) == noise0,
            noise_in(noise@, noise0.len() as int, noise@.len() as int, charset),
            ({
                let r = render_chars(cs@.take(i as int), frame as int, anim0, noise@, noise0.len() as int, fg@);
                &&& out@ == out0 + r.0
                &&& *in_anim == r.1
                &&& r.2 == noise@.len()
            }),
        decreases cs@.len() - i,
    {
        let ghost nb = noise@;
        render_char(out, &cs[i], frame, charset, fg, reset, in_anim, noise, rng);
        proof {
            assert(cs@.take(i + 1).drop_last() == cs@.take(i as int));
            assert(cs@.take(i + 1).last() == cs@[i as int]);
            lemma_render_chars_noise(cs@.take(i as int), frame as int, anim0, nb, noise@, noise0.len() as int, fg@);
            assert(noise@.take(noise0.len() as int) == nb.take(noise0.len() as int));
            assert forall|j: int| noise0.len() <= j < noise@.len() implies in_charset(#[trigger] noise@[j], charset) by {
                if j < nb.len() {
                    assert(noise@.take(nb.len() as int)[j] == noise@[j]);
                    assert(in_charset(nb[j], charset));
                }
            }
        }
        i = i + 1;
    }
    assert(cs@.take(cs@.len() as int) == cs@);
}

/// Appends the segments `segs` at `frame`, as `render_segs` says.
fn render_segments(
    out: &mut String,
    segs: &Vec<ReadySegment>,
    frame: usize,
    charset: ResolvedCharSet,
    fg: &String,
    reset: &String,
    in_anim: &mut bool,
    noise: &mut Vec<char>,
    rng: &mut SmallRng,
)
    requires
        reset@ == reset_seq(),
    ensures
        final(noise)@.len() >= old(noise)@.len(),
        final(noise)@.take(old(noise)@.len() as int) == old(noise)@,
        noise_in(final(noise)@, old(noise)@.len() as int, final(noise)@.len() as int, charset),
        ({
            let r = render_segs(segs@, frame as int, *old(in_anim), final(noise)@, old(noise)@.len() as int, fg@);
            &&& final(out)@ == old(out)@ + r.0
            &&& *final(in_anim) == r.1
            &&& r.2 == final(noise)@.len()
        }),
{
    let ghost out0 = out@;
    let ghost anim0 = *in_anim;
    let ghost noise0 = noise@;
    let mut i: usize = 0;
    while i < segs.len()
        invariant
            i <= segs@.len(),
            reset@ == reset_seq(),
            noise@.len() >= noise0.len(),
            noise@.take(noise0.len() as int) == noise0,
            noise_in(noise@, noise0.len() as int, noise@.len() as int, charset),
            ({
                let r = render_segs(segs@.take(i as int), frame as int, anim0, noise@, noise0.len() as int, fg@);
                &&& out@ == out0 + r.0
                &&& *in_anim == r.1
                &&& r.2 == noise@.len()
            }),
        decreases segs@.len() - i,
    {
        let ghost nb = noise@;
        let ghost ob = out@;
        let ghost ab = *in_anim;
        proof {
            assert(segs@.take(i + 1).drop_last() == segs@.take(i as int));
            assert(segs@.take(i + 1).last() == segs@[i as int]);
        }
        match &segs[i] {
            ReadySegment::Static(t) => {
                if *in_anim {
                    out.append(reset.as_str());
                    *in_anim = false;
                }
                out.append(t.as_str());
            },
            ReadySegment::Scrambled(cs) => {
                render_scrambled(out, cs, frame, charset, fg, reset, in_anim, noise, rng);
            },
        }
        proof {
            assert(noise@.take(nb.len() as int) == nb);
            lemma_render_segs_noise(segs@.take(i as int), frame as int, anim0, nb, noise@, noise0.len() as int, fg@);
            assert(noise@.take(noise0.len() as int) == nb.take(noise0.len() as int));
            assert forall|j: int| noise0.len() <= j < noise@.len() implies in_charset(#[trigger] noise@[j], charset) by {
                if j < nb.len() {
                    assert(noise@.take(nb.len() as int)[j] == noise@[j]);
                    assert(in_charset(nb[j], charset));
                }
            }
        }
        i = i + 1;
    }
    assert(segs@.take(segs@.len() as int) == segs@);
}

// ── Preparing columns ────────────────────────────────────────────────────────

/// Each column without its trailing visually empty lines.
pub open spec fn trimmed_columns(cols: Seq<Seq<Seq<char>>>, marker: char) -> Seq<Seq<Seq<char>>> {
    Seq::new(cols.len(), |ci: int| cols[ci].take(content_end(cols[ci], marker) as int))
}

/// Each column preceded by half (rounded down) of the lines it lacks against the tallest.
pub open spec fn centered_columns(cols: Seq<Seq<Seq<char>>>) -> Seq<Seq<Seq<char>>> {
    Seq::new(
        cols.len(),
        |ci: int| Seq::new(((layout_height(cols) - cols[ci].len()) / 2) as nat, |i: int| Seq::<char>::empty()) + cols[ci],
    )
}

/// The columns aligned as `valign` says.
pub open spec fn aligned_columns(cols: Seq<Seq<Seq<char>>>, valign: VAlign) -> Seq<Seq<Seq<char>>> {
    match valign {
        VAlign::Top => cols,
        VAlign::Center => centered_columns(cols),
    }
}

/// `a - b`, or 0 when `b > a`.
pub open spec fn sat_sub(a: int, b: int) -> int {
    if a > b {
        a - b
    } else {
        0
    }
}

/// Terminal columns taken by the columns before column `c` (their widest lines, cut to what
/// was left, and the gaps between them; the sum stops growing at `usize::MAX`).
pub open spec fn used_before(cols: Seq<Seq<Seq<char>>>, c: int, width: int, gap: int, marker: char) -> int
    decreases c,
{
    if c <= 0 {
        0
    } else {
        let u = used_before(cols, c - 1, width, gap, marker);
        let avail = sat_sub(width, u);
        let w = max_width_of(cols[c - 1], marker) as int;
        let u2 = u + if w < avail { w } else { avail };
        if c < cols.len() {
            if u2 + gap <= usize::MAX { u2 + gap } else { usize::MAX as int }
        } else {
            u2
        }
    }
}

/// Room left for column `c` in a terminal `width` columns wide.
pub open spec fn room_for(cols: Seq<Seq<Seq<char>>>, c: int, width: int, gap: int, marker: char) -> int {
    sat_sub(width, used_before(cols, c, width, gap, marker))
}

/// The columns cut to a terminal `width` columns wide: each line wider than the room left
/// for its column is truncated to that room; with no known width, the columns as they are.
pub open spec fn fitted_columns(cols: Seq<Seq<Seq<char>>>, width: Option<u16>, gap: int, marker: char) -> Seq<Seq<Seq<char>>> {
    match width {
        None => cols,
        Some(w) => Seq::new(
            cols.len(),
            |ci: int| Seq::new(
                cols[ci].len(),
                |k: int| {
                    let a = room_for(cols, ci, w as int, gap, marker);
                    if visual_width_spec(cols[ci][k], marker) > a {
                        truncate_from(cols[ci][k], 0, 0, a)
                    } else {
                        cols[ci][k]
                    }
                },
            ),
        ),
    }
}

/// The columns as they are laid out: trimmed, aligned, then fitted to the terminal.
pub open spec fn prepared_columns(
    cols: Seq<Seq<Seq<char>>>,
    valign: VAlign,
    width: Option<u16>,
    gap: int,
    marker: char,
) -> Seq<Seq<Seq<char>>> {
    fitted_columns(aligned_columns(trimmed_columns(cols, marker), valign), width, gap, marker)
}

pub proof fn lemma_used_before_bounded(cols: Seq<Seq<Seq<char>>>, c: int, width: int, gap: int, marker: char)
    requires
        0 <= c,
        0 <= width <= u16::MAX,
        0 <= gap <= usize::MAX,
    ensures
        0 <= used_before(cols, c, width, gap, marker) <= usize::MAX,
    decreases c,
{
    if c > 0 {
        lemma_used_before_bounded(cols, c - 1, width, gap, marker);
        let u = used_before(cols, c - 1, width, gap, marker);
        assert(u + sat_sub(width, u) <= if u > width { u } else { width });
    }
}

/// The columns without their trailing visually empty lines.
fn trim_columns(cols: &[Vec<String>], marker: char) -> (r: Vec<Vec<String>>)
    ensures
        columns_view(r@) == trimmed_columns(columns_view(cols@), marker),
{
    let ghost cv = columns_view(cols@);
    let mut r: Vec<Vec<String>> = Vec::new();
    let mut ci: usize = 0;
    while ci < cols.len()
        invariant
            ci <= cols@.len(),
            cv == columns_view(cols@),
            columns_view(r@) == trimmed_columns(cv, marker).take(ci as int),
        decreases cols@.len() - ci,
    {
        let t = trim_trailing_empty(cols[ci].as_slice(), marker);
        let col = slice_to_vec(t);
        let ghost before = r@;
        r.push(col);
        assert(columns_view(r@) == columns_view(before).push(strings_view(col@)));
        assert(trimmed_columns(cv, marker).take(ci + 1) == trimmed_columns(cv, marker).take(ci as int).push(
            trimmed_columns(cv, marker)[ci as int],
        ));
        ci = ci + 1;
    }
    assert(trimmed_columns(cv, marker).take(cols@.len() as int) == trimmed_columns(cv, marker));
    r
}

/// A copy of `s`.
pub(crate) fn slice_to_vec(s: &[String]) -> (r: Vec<String>)
    ensures
        strings_view(r@) == strings_view(s@),
{
    let mut r: Vec<String> = Vec::new();
    let mut k: usize = 0;
    while k < s.len()
        invariant
            k <= s@.len(),
            strings_view(r@) == strings_view(s@).take(k as int),
        decreases s@.len() - k,
    {
        r.push(s[k].clone());
        assert(strings_view(s@).take(k + 1) == strings_view(s@).take(k as int).push(s@[k as int]@));
        k = k + 1;
    }
    assert(strings_view(s@).take(s@.len() as int) == strings_view(s@));
    r
}

/// The columns aligned as `valign` says.
fn align_columns(cols: Vec<Vec<String>>, valign: VAlign) -> (r: Vec<Vec<String>>)
    ensures
        columns_view(r@) == aligned_columns(columns_view(cols@), valign),
{
    match valign {
        VAlign::Top => cols,
        VAlign::Center => {
            let ghost cv = columns_view(cols@);
            let max_h = columns_height(cols.as_slice());
            let mut r: Vec<Vec<String>> = Vec::new();
            let mut ci: usize = 0;
            while ci < cols.len()
                invariant
                    ci <= cols@.len(),
                    cv == columns_view(cols@),
                    max_h == layout_height(cv),
                    columns_view(r@) == centered_columns(cv).take(ci as int),
                decreases cols@.len() - ci,
            {
                proof {
                    lemma_height_bounds(cv, ci as int);
                }
                let p = (max_h - cols[ci].len()) / 2;
                let mut col: Vec<String> = Vec::new();
                let mut i: usize = 0;
                while i < p
                    invariant
                        i <= p,
                        col@.len() == i,
                        forall|j: int| 0 <= j < i ==> (#[trigger] col@[j])@ == Seq::<char>::empty(),
                    decreases p - i,
                {
                    col.push(String::new());
                    i = i + 1;
                }
                let mut k: usize = 0;
                while k < cols[ci].len()
                    invariant
                        k <= cols@[ci as int]@.len(),
                        ci < cols@.len(),
                        col@.len() == p + k,
                        forall|j: int| 0 <= j < p ==> (#[trigger] col@[j])@ == Seq::<char>::empty(),
                        forall|j: int| 0 <= j < k ==> (#[trigger] col@[p + j])@ == cols@[ci as int]@[j]@,
                    decreases cols@[ci as int]@.len() - k,
                {
                    col.push(cols[ci][k].clone());
                    k = k + 1;
                }
                let ghost before = r@;
                r.push(col);
                proof {
                    let want = centered_columns(cv)[ci as int];
                    assert(cv[ci as int] == strings_view(cols@[ci as int]@));
                    assert(want.len() == col@.len());
                    assert forall|j: int| 0 <= j < want.len() implies strings_view(col@)[j] == want[j] by {
                        if j < p {
                            assert(col@[j]@ == Seq::<char>::empty());
                        } else {
                            assert(col@[p + (j - p)]@ == cols@[ci as int]@[j - p]@);
                        }
                    }
                    assert(strings_view(col@) == want);
                    assert(columns_view(r@) == columns_view(before).push(strings_view(col@)));
                    assert(centered_columns(cv).take(ci + 1) == centered_columns(cv).take(ci as int).push(want));
                }
                ci = ci + 1;
            }
            assert(centered_columns(cv).take(cols@.len() as int) == centered_columns(cv));
            r
        },
    }
}

pub proof fn lemma_height_bounds(cols: Seq<Seq<Seq<char>>>, ci: int)
    requires
        0 <= ci < cols.len(),
    ensures
        cols[ci].len() <= layout_height(cols),
    decreases cols.len(),
{
    if ci < cols.len() - 1 {
        lemma_height_bounds(cols.drop_last(), ci);
    }
}

/// The columns cut to a terminal `width` columns wide, as `fitted_columns` says.
fn fit_columns(cols: Vec<Vec<String>>, width: Option<u16>, gap: usize, marker: char) -> (r: Vec<Vec<String>>)
    ensures
        columns_view(r@) == fitted_columns(columns_view(cols@), width, gap as int, marker),
{
    match width {
        None => cols,
        Some(term_w) => {
            let ghost cv = columns_view(cols@);
            let n = cols.len();
            let mut r: Vec<Vec<String>> = Vec::new();
            let mut used: usize = 0;
            let mut ci: usize = 0;
            while ci < n
                invariant
                    ci <= n,
                    n == cols@.len(),
                    cv == columns_view(cols@),
                    used == used_before(cv, ci as int, term_w as int, gap as int, marker),
                    columns_view(r@) == fitted_columns(cv, width, gap as int, marker).take(ci as int),
                    width == Some(term_w),
                decreases n - ci,
            {
                proof {
                    lemma_used_before_bounded(cv, ci as int, term_w as int, gap as int, marker);
                }
                let avail = (term_w as usize).saturating_sub(used);
                assert(avail == room_for(cv, ci as int, term_w as int, gap as int, marker));
                let col = &cols[ci];
                assert(cv[ci as int] == strings_view(col@));
                let mut col_out: Vec<String> = Vec::new();
                let mut k: usize = 0;
                while k < col.len()
                    invariant
                        k <= col@.len(),
                        ci < n,
                        n == cols@.len(),
                        cv == columns_view(cols@),
                        cv[ci as int] == strings_view(col@),
                        width == Some(term_w),
                        avail == room_for(cv, ci as int, term_w as int, gap as int, marker),
                        strings_view(col_out@) == fitted_columns(cv, width, gap as int, marker)[ci as int].take(k as int),
                    decreases col@.len() - k,
                {
                    let line = &col[k];
                    let out_line = if visual_width(line.as_str(), marker) > avail {
                        truncate_to_visual_width(line.as_str(), avail)
                    } else {
                        line.clone()
                    };
                    let ghost before = col_out@;
                    col_out.push(out_line);
                    proof {
                        let f = fitted_columns(cv, width, gap as int, marker)[ci as int];
                        assert(strings_view(col_out@) == strings_view(before).push(out_line@));
                        assert(f.take(k + 1) == f.take(k as int).push(f[k as int]));
                        assert(cv[ci as int][k as int] == line@);
                    }
                    k = k + 1;
                }
                proof {
                    let f = fitted_columns(cv, width, gap as int, marker);
                    assert(f[ci as int].take(col@.len() as int) == f[ci as int]);
                    assert(f.take(ci + 1) == f.take(ci as int).push(f[ci as int]));
                }
                let ghost before = r@;
                r.push(col_out);
                assert(columns_view(r@) == columns_view(before).push(strings_view(col_out@)));
                let max_w = column_max_width(&cols[ci], marker);
                let taken = if max_w < avail { max_w } else { avail };
                used = used + taken;
                if ci + 1 < n {
                    used = used.saturating_add(gap);
                }
                ci = ci + 1;
            }
            assert(fitted_columns(cv, width, gap as int, marker).take(n as int) == fitted_columns(cv, width, gap as int, marker));
            r
        },
    }
}

// ── Laying out and parsing the columns ───────────────────────────────────────

/// Characters that a segment (scrambled or not, and its text) scrambles: none when it is
/// static; when it is scrambled, its visible characters if its colour codes are kept
/// (`keep_codes`), else all its characters.
pub open spec fn region_len(g: (bool, Seq<char>), keep_codes: bool) -> nat {
    if !g.0 {
        0
    } else if keep_codes {
        strip_ansi_spec(g.1).len()
    } else {
        g.1.len()
    }
}

/// Characters that the segment `g` scrambles.
pub open spec fn scrambled_len(g: Segment, keep_codes: bool) -> nat {
    region_len(g@, keep_codes)
}

/// The most visible characters of any scrambled segment of `segs` (0 if there is none).
pub open spec fn max_in_segs(segs: Seq<Segment>, keep_codes: bool) -> nat
    decreases segs.len(),
{
    if segs.len() == 0 {
        0
    } else {
        let rest = max_in_segs(segs.drop_last(), keep_codes);
        let m = scrambled_len(segs.last(), keep_codes);
        if m > rest { m } else { rest }
    }
}

/// The most visible characters of any scrambled segment of a row of cells.
pub open spec fn max_in_row(row: Seq<Vec<Segment>>, keep_codes: bool) -> nat
    decreases row.len(),
{
    if row.len() == 0 {
        0
    } else {
        let rest = max_in_row(row.drop_last(), keep_codes);
        let m = max_in_segs(row.last()@, keep_codes);
        if m > rest { m } else { rest }
    }
}

/// The most visible characters of any scrambled segment of any cell.
pub open spec fn max_in_cells(cells: Seq<Vec<Vec<Segment>>>, keep_codes: bool) -> nat
    decreases cells.len(),
{
    if cells.len() == 0 {
        0
    } else {
        let rest = max_in_cells(cells.drop_last(), keep_codes);
        let m = max_in_row(cells.last()@, keep_codes);
        if m > rest { m } else { rest }
    }
}

/// Laid-out columns: for each row and column, the segments of the cell (cursor codes
/// dropped, markers parsed) and the spaces after it; and the widest scrambled region.
pub struct ColumnLayout {
    pub cells: Vec<Vec<Vec<Segment>>>,
    pub paddings: Vec<Vec<usize>>,
    pub max_chars: usize,
}

/// Every row of `lay` has one cell and one padding per column.
pub open spec fn layout_shape_ok(lay: ColumnLayout) -> bool {
    &&& lay.paddings@.len() == lay.cells@.len()
    &&& forall|i: int| 0 <= i < lay.cells@.len() ==> (#[trigger] lay.paddings@[i])@.len() == lay.cells@[i]@.len()
}

/// `lay` lays out the columns `prep` with `gap` and `marker`.
pub open spec fn layout_of(
    lay: ColumnLayout,
    prep: Seq<Seq<Seq<char>>>,
    gap: int,
    marker: char,
    keep_codes: bool,
) -> bool {
    &&& layout_shape_ok(lay)
    &&& lay.cells@.len() == layout_height(prep)
    &&& forall|i: int| 0 <= i < lay.cells@.len() ==> (#[trigger] lay.cells@[i])@.len() == prep.len()
    &&& forall|i: int, ci: int|
        0 <= i < lay.cells@.len() && 0 <= ci < prep.len() ==> {
            &&& segments_view((#[trigger] lay.cells@[i]@[ci])@) == parse_markers_spec(
                keep_sgr_from(cell_text(prep, i, ci), 0),
                marker,
            )
            &&& lay.paddings@[i]@[ci] == cell_padding(prep, gap, marker, i, ci)
        }
    &&& lay.max_chars == max_in_cells(lay.cells@, keep_codes)
}

fn segs_max(segs: &Vec<Segment>, keep_codes: bool) -> (m: usize)
    ensures
        m == max_in_segs(segs@, keep_codes),
{
    let mut m: usize = 0;
    let mut k: usize = 0;
    while k < segs.len()
        invariant
            k <= segs@.len(),
            m == max_in_segs(segs@.take(k as int), keep_codes),
        decreases segs@.len() - k,
    {
        assert(segs@.take(k + 1).drop_last() == segs@.take(k as int));
        assert(segs@.take(k + 1).last() == segs@[k as int]);
        match &segs[k] {
            Segment::Scrambled(t) => {
                let c = if keep_codes { strip_ansi(t.as_str()).unicode_len() } else { t.unicode_len() };
                if c > m {
                    m = c;
                }
            },
            Segment::Static(_) => {},
        }
        k = k + 1;
    }
    assert(segs@.take(segs@.len() as int) == segs@);
    m
}

fn row_max(row: &Vec<Vec<Segment>>, keep_codes: bool) -> (m: usize)
    ensures
        m == max_in_row(row@, keep_codes),
{
    let mut m: usize = 0;
    let mut k: usize = 0;
    while k < row.len()
        invariant
            k <= row@.len(),
            m == max_in_row(row@.take(k as int), keep_codes),
        decreases row@.len() - k,
    {
        assert(row@.take(k + 1).drop_last() == row@.take(k as int));
        assert(row@.take(k + 1).last() == row@[k as int]);
        let c = segs_max(&row[k], keep_codes);
        if c > m {
            m = c;
        }
        k = k + 1;
    }
    assert(row@.take(row@.len() as int) == row@);
    m
}

fn cells_max(cells: &Vec<Vec<Vec<Segment>>>, keep_codes: bool) -> (m: usize)
    ensures
        m == max_in_cells(cells@, keep_codes),
{
    let mut m: usize = 0;
    let mut k: usize = 0;
    while k < cells.len()
        invariant
            k <= cells@.len(),
            m == max_in_cells(cells@.take(k as int), keep_codes),
        decreases cells@.len() - k,
    {
        assert(cells@.take(k + 1).drop_last() == cells@.take(k as int));
        assert(cells@.take(k + 1).last() == cells@[k as int]);
        let c = row_max(&cells[k], keep_codes);
        if c > m {
            m = c;
        }
        k = k + 1;
    }
    assert(cells@.take(cells@.len() as int) == cells@);
    m
}

/// Lays out the columns: trims trailing empty lines, aligns them vertically, fits them to
/// the terminal width, composes the rows, and parses every cell into segments.
#[verifier::spinoff_prover]
pub fn prepare_columns(
    cols: &[Vec<String>],
    gap: usize,
    marker: char,
    valign: VAlign,
    width: Option<u16>,
    keep_codes: bool,
) -> (lay: ColumnLayout)
    requires
        widths_fit(prepared_columns(columns_view(cols@), valign, width, gap as int, marker), gap as int, marker),
    ensures
        layout_of(
            lay,
            prepared_columns(columns_view(cols@), valign, width, gap as int, marker),
            gap as int,
            marker,
            keep_codes,
        ),
        cols@.len() == 0 ==> lay.cells@.len() == 0,
{
    let trimmed = trim_columns(cols, marker);
    let aligned = align_columns(trimmed, valign);
    let fitted = fit_columns(aligned, width, gap, marker);
    let ghost prep = columns_view(fitted@);
    let rows = compose_layout(fitted.as_slice(), gap, marker);
    let mut cells: Vec<Vec<Vec<Segment>>> = Vec::new();
    let mut paddings: Vec<Vec<usize>> = Vec::new();
    let mut i: usize = 0;
    while i < rows.len()
        invariant
            i <= rows@.len(),
            prep == columns_view(fitted@),
            rows@.len() == layout_height(prep),
            forall|row: int| 0 <= row < rows@.len() ==> crate::layout::layout_row_ok(prep, gap as int, marker, row, #[trigger] rows@[row]@),
            cells@.len() == i,
            paddings@.len() == i,
            forall|r: int| 0 <= r < i ==> (#[trigger] cells@[r])@.len() == prep.len(),
            forall|r: int| 0 <= r < i ==> (#[trigger] paddings@[r])@.len() == prep.len(),
            forall|r: int, ci: int|
                0 <= r < i && 0 <= ci < prep.len() ==> {
                    &&& segments_view((#[trigger] cells@[r]@[ci])@) == parse_markers_spec(
                        keep_sgr_from(cell_text(prep, r, ci), 0),
                        marker,
                    )
                    &&& paddings@[r]@[ci] == cell_padding(prep, gap as int, marker, r, ci)
                },
        decreases rows@.len() - i,
    {
        let row = &rows[i];
        assert(crate::layout::layout_row_ok(prep, gap as int, marker, i as int, row@));
        let parsed = parse_row(row, marker);
        let row_cells = parsed.0;
        let row_pads = parsed.1;
        assert forall|c: int| 0 <= c < prep.len() implies {
            &&& segments_view((#[trigger] row_cells@[c])@) == parse_markers_spec(keep_sgr_from(cell_text(prep, i as int, c), 0), marker)
            &&& row_pads@[c] == cell_padding(prep, gap as int, marker, i as int, c)
        } by {
            assert(row@[c].0@ == cell_text(prep, i as int, c));
            assert(segments_view(row_cells@[c]@) == parse_markers_spec(keep_sgr_from(row@[c].0@, 0), marker));
        }
        let ghost rc = row_cells@;
        let ghost rp = row_pads@;
        let ghost old_cells = cells@;
        let ghost old_pads = paddings@;
        cells.push(row_cells);
        paddings.push(row_pads);
        proof {
            assert forall|r: int, ci: int|
                0 <= r < i + 1 && 0 <= ci < prep.len() implies {
                    &&& segments_view((#[trigger] cells@[r]@[ci])@) == parse_markers_spec(
                        keep_sgr_from(cell_text(prep, r, ci), 0),
                        marker,
                    )
                    &&& paddings@[r]@[ci] == cell_padding(prep, gap as int, marker, r, ci)
                } by {
                if r < i {
                    assert(cells@[r] == old_cells[r]);
                    assert(paddings@[r] == old_pads[r]);
                } else {
                    assert(cells@[r]@[ci] == rc[ci]);
                    assert(paddings@[r]@[ci] == rp[ci]);
                    assert(segments_view(rc[ci]@) == parse_markers_spec(keep_sgr_from(cell_text(prep, r, ci), 0), marker));
                }
            }
        }
        i = i + 1;
    }
    let max_chars = cells_max(&cells, keep_codes);
    ColumnLayout { cells, paddings, max_chars }
}

// ── Lock frames ──────────────────────────────────────────────────────────────

/// `slice::sort_unstable` on lock frames: afterwards they ascend, and they are the same
/// frames, each as many times.
#[verifier::external_body]
fn sort_frames(v: &mut Vec<usize>)
    ensures
        final(v)@.len() == old(v)@.len(),
        final(v)@.to_multiset() == old(v)@.to_multiset(),
        forall|a: int, b: int| 0 <= a <= b < final(v)@.len() ==> final(v)@[a] <= final(v)@[b],
{
    v.sort_unstable()
}

pub proof fn lemma_permutation_in_range(s: Seq<usize>, t: Seq<usize>, lo: int, hi: int)
    requires
        s.to_multiset() == t.to_multiset(),
        forall|k: int| 0 <= k < t.len() ==> lo <= #[trigger] t[k] <= hi,
    ensures
        forall|k: int| 0 <= k < s.len() ==> lo <= #[trigger] s[k] <= hi,
{
    s.to_multiset_ensures();
    t.to_multiset_ensures();
    assert forall|k: int| 0 <= k < s.len() implies lo <= #[trigger] s[k] <= hi by {
        assert(s.contains(s[k]));
        assert(s.to_multiset().count(s[k]) > 0);
        assert(t.contains(s[k]));
        let j = choose|j: int| 0 <= j < t.len() && t[j] == s[k];
        assert(lo <= t[j] <= hi);
    }
}

/// The characters that the scrambled region `text` scrambles, each with the codes shown
/// just before it once it locks: with `keep_codes`, its visible characters, each with the
/// colour codes in front of it; otherwise all its characters, with no codes.
pub open spec fn scramble_units(text: Seq<char>, keep_codes: bool) -> Seq<(char, Seq<char>)> {
    if keep_codes {
        context_from(text, 0, seq![])
    } else {
        text.map_values(|c: char| (c, Seq::<char>::empty()))
    }
}

/// `cs` are the characters that the scrambled region `text` scrambles, each with the codes
/// before it, locking between frames 1 and `total`, in ascending order for `Ordered`.
pub open spec fn scramble_matches(
    cs: Seq<ScrambleChar>,
    text: Seq<char>,
    total: int,
    order: RevealOrder,
    keep_codes: bool,
) -> bool {
    let ctx = scramble_units(text, keep_codes);
    &&& cs.len() == ctx.len()
    &&& forall|k: int|
        0 <= k < cs.len() ==> {
            &&& (#[trigger] cs[k]).actual == ctx[k].0
            &&& cs[k].color_before@ == ctx[k].1
            &&& 1 <= cs[k].lock_frame <= total
        }
    &&& order == RevealOrder::Ordered ==> forall|a: int, b: int|
        0 <= a <= b < cs.len() ==> #[trigger] cs[a].lock_frame <= #[trigger] cs[b].lock_frame
}

/// `r` is the segment `g` made ready with lock frames up to `total`.
pub open spec fn ready_matches(g: Segment, r: ReadySegment, total: int, order: RevealOrder, keep_codes: bool) -> bool {
    match r {
        ReadySegment::Static(t) => !g@.0 && t@ == g@.1,
        ReadySegment::Scrambled(cs) => g@.0 && scramble_matches(cs@, g@.1, total, order, keep_codes),
    }
}

/// Every character of `s`, with no codes before it.
fn bare_units(s: &str) -> (r: Vec<(char, String)>)
    ensures
        context_view(r@) == scramble_units(s@, false),
{
    let v = chars_of(s);
    let mut r: Vec<(char, String)> = Vec::new();
    let mut k: usize = 0;
    while k < v.len()
        invariant
            k <= v@.len(),
            v@ == s@,
            context_view(r@) == scramble_units(s@, false).take(k as int),
        decreases v@.len() - k,
    {
        r.push((v[k], String::new()));
        assert(scramble_units(s@, false).take(k + 1) == scramble_units(s@, false).take(k as int).push(
            (v@[k as int], Seq::<char>::empty()),
        ));
        k = k + 1;
    }
    assert(scramble_units(s@, false).take(v@.len() as int) == scramble_units(s@, false));
    r
}

/// The segments of a line made ready: static text as it is; each character that a
/// scrambled region scrambles (see `scramble_units`) given a random lock frame in
/// `1..=total_frames`, the frames sorted for `Ordered` so that the region locks left to right.
fn build_ready_line(
    segs: &Vec<Segment>,
    total_frames: usize,
    order: RevealOrder,
    keep_codes: bool,
    rng: &mut SmallRng,
) -> (r: Vec<ReadySegment>)
    requires
        total_frames >= 1,
    ensures
        r@.len() == segs@.len(),
        forall|i: int|
            0 <= i < segs@.len() ==> ready_matches(segs@[i], #[trigger] r@[i], total_frames as int, order, keep_codes),
{
    let mut out: Vec<ReadySegment> = Vec::new();
    let mut i: usize = 0;
    while i < segs.len()
        invariant
            i <= segs@.len(),
            total_frames >= 1,
            out@.len() == i,
            forall|j: int| 0 <= j < i ==> ready_matches(segs@[j], #[trigger] out@[j], total_frames as int, order, keep_codes),
        decreases segs@.len() - i,
    {
        match &segs[i] {
            Segment::Static(t) => {
                out.push(ReadySegment::Static(t.clone()));
            },
            Segment::Scrambled(t) => {
                let text_chars = if keep_codes { chars_with_ansi_context(t.as_str()) } else { bare_units(t.as_str()) };
                let n = text_chars.len();
                let mut frames: Vec<usize> = Vec::new();
                let mut k: usize = 0;
                while k < n
                    invariant
                        k <= n,
                        total_frames >= 1,
                        frames@.len() == k,
                        forall|j: int| 0 <= j < k ==> 1 <= #[trigger] frames@[j] <= total_frames,
                    decreases n - k,
                {
                    frames.push(random_in(rng, 1, total_frames));
                    k = k + 1;
                }
                if order == RevealOrder::Ordered {
                    let ghost unsorted = frames@;
                    sort_frames(&mut frames);
                    proof {
                        lemma_permutation_in_range(frames@, unsorted, 1, total_frames as int);
                    }
                }
                assert(context_view(text_chars@) == scramble_units(t@, keep_codes));
                let cs = zip_lock_frames(&text_chars, &frames);
                let ghost csv = cs@;
                out.push(ReadySegment::Scrambled(cs));
                proof {
                    assert(scramble_matches(csv, t@, total_frames as int, order, keep_codes));
                }
            },
        }
        i = i + 1;
    }
    out
}

/// The character of `p`.
fn pair_char(p: &(char, String)) -> (c: char)
    ensures
        c == p.0,
{
    p.0
}

/// A copy of the codes of `p`.
fn pair_codes(p: &(char, String)) -> (s: String)
    ensures
        s@ == p.1@,
{
    p.1.clone()
}

/// Each character with its preceding codes, paired with the lock frame at the same position.
fn zip_lock_frames(text_chars: &Vec<(char, String)>, frames: &Vec<usize>) -> (cs: Vec<ScrambleChar>)
    requires
        frames@.len() == text_chars@.len(),
    ensures
        cs@.len() == text_chars@.len(),
        forall|j: int|
            0 <= j < cs@.len() ==> {
                &&& (#[trigger] cs@[j]).actual == text_chars@[j].0
                &&& cs@[j].color_before@ == text_chars@[j].1@
                &&& cs@[j].lock_frame == frames@[j]
            },
{
    let n = text_chars.len();
    let mut zipped: Vec<ScrambleChar> = Vec::new();
    let mut m: usize = 0;
    while m < n
        invariant
            m <= n,
            n == text_chars@.len(),
            frames@.len() == n,
            zipped@.len() == m,
            forall|j: int|
                0 <= j < m ==> {
                    &&& (#[trigger] zipped@[j]).actual == text_chars@[j].0
                    &&& zipped@[j].color_before@ == text_chars@[j].1@
                    &&& zipped@[j].lock_frame == frames@[j]
                },
        decreases n - m,
    {
        let ch = pair_char(&text_chars[m]);
        let before_codes = pair_codes(&text_chars[m]);
        let f = frames[m];
        let sc = ScrambleChar { actual: ch, lock_frame: f, color_before: before_codes };
        zipped.push(sc);
        m = m + 1;
    }
    zipped
}

// ── Rendering rows ───────────────────────────────────────────────────────────

pub proof fn lemma_render_segs_mono(segs: Seq<ReadySegment>, frame: int, anim: bool, n: Seq<char>, k: int, fg: Seq<char>)
    ensures
        k <= render_segs(segs, frame, anim, n, k, fg).2,
    decreases segs.len(),
{
    if segs.len() > 0 {
        lemma_render_segs_mono(segs.drop_last(), frame, anim, n, k, fg);
        let r = render_segs(segs.drop_last(), frame, anim, n, k, fg);
        match segs.last() {
            ReadySegment::Static(_) => {},
            ReadySegment::Scrambled(cs) => {
                lemma_render_chars_mono(cs@, frame, r.1, n, r.2, fg);
            },
        }
    }
}

pub proof fn lemma_render_cols_mono(cols: Seq<Vec<ReadySegment>>, pads: Seq<usize>, frame: int, n: Seq<char>, k: int, fg: Seq<char>)
    ensures
        k <= render_cols(cols, pads, frame, n, k, fg).1,
    decreases cols.len(),
{
    if cols.len() > 0 {
        lemma_render_cols_mono(cols.drop_last(), pads, frame, n, k, fg);
        let r = render_cols(cols.drop_last(), pads, frame, n, k, fg);
        lemma_render_segs_mono(cols.last()@, frame, false, n, r.1, fg);
    }
}

pub proof fn lemma_render_cols_noise(
    cols: Seq<Vec<ReadySegment>>,
    pads: Seq<usize>,
    frame: int,
    n1: Seq<char>,
    n2: Seq<char>,
    k: int,
    fg: Seq<char>,
)
    requires
        0 <= k,
        n1.len() <= n2.len(),
        n2.take(n1.len() as int) == n1,
        render_cols(cols, pads, frame, n1, k, fg).1 <= n1.len(),
    ensures
        render_cols(cols, pads, frame, n2, k, fg) == render_cols(cols, pads, frame, n1, k, fg),
    decreases cols.len(),
{
    if cols.len() > 0 {
        let r = render_cols(cols.drop_last(), pads, frame, n1, k, fg);
        lemma_render_segs_mono(cols.last()@, frame, false, n1, r.1, fg);
        lemma_render_cols_noise(cols.drop_last(), pads, frame, n1, n2, k, fg);
        lemma_render_cols_mono(cols.drop_last(), pads, frame, n1, k, fg);
        lemma_render_segs_noise(cols.last()@, frame, false, n1, n2, r.1, fg);
    }
}

/// `n` spaces, as a string.
fn space_string(n: usize) -> (s: String)
    ensures
        s@ == spaces(n as nat),
{
    let mut s = String::new();
    let mut i: usize = 0;
    while i < n
        invariant
            i <= n,
            s@ == spaces(i as nat),
        decreases n - i,
    {
        s.push(' ');
        assert(spaces((i + 1) as nat) == spaces(i as nat).push(' '));
        i = i + 1;
    }
    s
}

/// Appends one row of columns at `frame`, as `render_cols` says, then a newline.
fn render_row(
    out: &mut String,
    cols: &Vec<Vec<ReadySegment>>,
    paddings: &Vec<usize>,
    frame: usize,
    charset: ResolvedCharSet,
    fg: &String,
    reset: &String,
    noise: &mut Vec<char>,
    rng: &mut SmallRng,
)
    requires
        reset@ == reset_seq(),
        paddings@.len() == cols@.len(),
    ensures
        final(noise)@.len() >= old(noise)@.len(),
        final(noise)@.take(old(noise)@.len() as int) == old(noise)@,
        noise_in(final(noise)@, old(noise)@.len() as int, final(noise)@.len() as int, charset),
        ({
            let r = render_cols(cols@, paddings@, frame as int, final(noise)@, old(noise)@.len() as int, fg@);
            &&& final(out)@ == old(out)@ + r.0 + seq!['\n']
            &&& r.1 == final(noise)@.len()
        }),
{
    let ghost out0 = out@;
    let ghost noise0 = noise@;
    let mut i: usize = 0;
    while i < cols.len()
        invariant
            i <= cols@.len(),
            paddings@.len() == cols@.len(),
            reset@ == reset_seq(),
            noise@.len() >= noise0.len(),
            noise@.take(noise0.len() as int) == noise0,
            noise_in(noise@, noise0.len() as int, noise@.len() as int, charset),
            ({
                let r = render_cols(cols@.take(i as int), paddings@, frame as int, noise@, noise0.len() as int, fg@);
                &&& out@ == out0 + r.0
                &&& r.1 == noise@.len()
            }),
        decreases cols@.len() - i,
    {
        let ghost nb = noise@;
        let mut in_anim = false;
        render_segments(out, &cols[i], frame, charset, fg, reset, &mut in_anim, noise, rng);
        if in_anim {
            out.append(reset.as_str());
        }
        let pad = space_string(paddings[i]);
        out.append(pad.as_str());
        proof {
            assert(cols@.take(i + 1).drop_last() == cols@.take(i as int));
            assert(cols@.take(i + 1).last() == cols@[i as int]);
            lemma_render_cols_noise(cols@.take(i as int), paddings@, frame as int, nb, noise@, noise0.len() as int, fg@);
            assert(noise@.take(noise0.len() as int) == nb.take(noise0.len() as int));
            assert forall|j: int| noise0.len() <= j < noise@.len() implies in_charset(#[trigger] noise@[j], charset) by {
                if j < nb.len() {
                    assert(noise@.take(nb.len() as int)[j] == noise@[j]);
                    assert(in_charset(nb[j], charset));
                }
            }
        }
        i = i + 1;
    }
    assert(cols@.take(cols@.len() as int) == cols@);
    out.push('\n');
}

/// The rows at `frame`, each moved to column 0 first and ended by a newline.
pub open spec fn render_lines(
    rows: Seq<Vec<Vec<ReadySegment>>>,
    pads: Seq<Vec<usize>>,
    frame: int,
    noise: Seq<char>,
    k: int,
    fg: Seq<char>,
) -> (Seq<char>, int)
    decreases rows.len(),
{
    if rows.len() == 0 {
        (seq![], k)
    } else {
        let (o, k1) = render_lines(rows.drop_last(), pads, frame, noise, k, fg);
        let (o2, k2) = render_cols(rows.last()@, pads[rows.len() - 1]@, frame, noise, k1, fg);
        (o + column_seq(0) + o2 + seq!['\n'], k2)
    }
}

pub proof fn lemma_render_lines_noise(
    rows: Seq<Vec<Vec<ReadySegment>>>,
    pads: Seq<Vec<usize>>,
    frame: int,
    n1: Seq<char>,
    n2: Seq<char>,
    k: int,
    fg: Seq<char>,
)
    requires
        0 <= k,
        n1.len() <= n2.len(),
        n2.take(n1.len() as int) == n1,
        render_lines(rows, pads, frame, n1, k, fg).1 <= n1.len(),
    ensures
        render_lines(rows, pads, frame, n2, k, fg) == render_lines(rows, pads, frame, n1, k, fg),
        k <= render_lines(rows, pads, frame, n1, k, fg).1,
    decreases rows.len(),
{
    if rows.len() > 0 {
        let r = render_lines(rows.drop_last(), pads, frame, n1, k, fg);
        lemma_render_cols_mono(rows.last()@, pads[rows.len() - 1]@, frame, n1, r.1, fg);
        lemma_render_lines_noise(rows.drop_last(), pads, frame, n1, n2, k, fg);
        lemma_render_cols_noise(rows.last()@, pads[rows.len() - 1]@, frame, n1, n2, r.1, fg);
    }
}

/// Every row has one padding per column.
pub open spec fn rows_shape_ok(rows: Seq<Vec<Vec<ReadySegment>>>, pads: Seq<Vec<usize>>) -> bool {
    &&& pads.len() == rows.len()
    &&& forall|i: int| 0 <= i < rows.len() ==> (#[trigger] pads[i])@.len() == rows[i]@.len()
}

/// Appends the rows at `frame`, as `render_lines` says.
fn render_frame_rows(
    out: &mut String,
    rows: &Vec<Vec<Vec<ReadySegment>>>,
    paddings: &Vec<Vec<usize>>,
    frame: usize,
    charset: ResolvedCharSet,
    col0: &String,
    fg: &String,
    reset: &String,
    noise: &mut Vec<char>,
    rng: &mut SmallRng,
)
    requires
        reset@ == reset_seq(),
        col0@ == column_seq(0),
        rows_shape_ok(rows@, paddings@),
    ensures
        final(noise)@.len() >= old(noise)@.len(),
        final(noise)@.take(old(noise)@.len() as int) == old(noise)@,
        noise_in(final(noise)@, old(noise)@.len() as int, final(noise)@.len() as int, charset),
        ({
            let r = render_lines(rows@, paddings@, frame as int, final(noise)@, old(noise)@.len() as int, fg@);
            &&& final(out)@ == old(out)@ + r.0
            &&& r.1 == final(noise)@.len()
        }),
{
    let ghost out0 = out@;
    let ghost noise0 = noise@;
    let mut i: usize = 0;
    while i < rows.len()
        invariant
            i <= rows@.len(),
            rows_shape_ok(rows@, paddings@),
            reset@ == reset_seq(),
            col0@ == column_seq(0),
            noise@.len() >= noise0.len(),
            noise@.take(noise0.len() as int) == noise0,
            noise_in(noise@, noise0.len() as int, noise@.len() as int, charset),
            ({
                let r = render_lines(rows@.take(i as int), paddings@, frame as int, noise@, noise0.len() as int, fg@);
                &&& out@ == out0 + r.0
                &&& r.1 == noise@.len()
            }),
        decreases rows@.len() - i,
    {
        let ghost nb = noise@;
        out.append(col0.as_str());
        assert(paddings@[i as int]@.len() == rows@[i as int]@.len());
        render_row(out, &rows[i], &paddings[i], frame, charset, fg, reset, noise, rng);
        proof {
            assert(rows@.take(i + 1).drop_last() == rows@.take(i as int));
            assert(rows@.take(i + 1).last() == rows@[i as int]);
            lemma_render_lines_noise(rows@.take(i as int), paddings@, frame as int, nb, noise@, noise0.len() as int, fg@);
            assert(noise@.take(noise0.len() as int) == nb.take(noise0.len() as int));
            assert forall|j: int| noise0.len() <= j < noise@.len() implies in_charset(#[trigger] noise@[j], charset) by {
                if j < nb.len() {
                    assert(noise@.take(nb.len() as int)[j] == noise@[j]);
                    assert(in_charset(nb[j], charset));
                }
            }
        }
        i = i + 1;
    }
    assert(rows@.take(rows@.len() as int) == rows@);
}

// ── Column frames ────────────────────────────────────────────────────────────

/// `n` newlines.
pub open spec fn newlines(n: nat) -> Seq<char> {
    Seq::new(n, |i: int| '\n')
}

/// Frame `f` of a column animation with `total` lock frames over the ready `rows`: the
/// first frame hides the cursor and reserves the rows' lines, every frame moves back up
/// over them and draws them (at frame `f`, or at frame 1 when nothing is scrambled), and
/// the last frame shows the cursor again.
pub open spec fn column_frame(
    rows: Seq<Vec<Vec<ReadySegment>>>,
    pads: Seq<Vec<usize>>,
    total: int,
    f: int,
    noise: Seq<char>,
    fg: Seq<char>,
) -> Seq<char> {
    let up = up_seq((rows.len() as u16) as nat);
    let lead = if f == 0 { hide_seq() + newlines(rows.len()) + up } else { up };
    let body = render_lines(rows, pads, if total == 0 { 1 } else { f }, noise, 0, fg).0;
    let tail = if f == total { show_seq() } else { seq![] };
    lead + body + tail
}

/// `frames` are frames `0..=total` of the column animation, each with its own noise drawn from `set`.
pub open spec fn column_frames_ok(
    rows: Seq<Vec<Vec<ReadySegment>>>,
    pads: Seq<Vec<usize>>,
    total: int,
    set: ResolvedCharSet,
    fg: Seq<char>,
    frames: Seq<Seq<char>>,
) -> bool {
    &&& frames.len() == total + 1
    &&& exists|noises: Seq<Seq<char>>|
        {
            &&& noises.len() == frames.len()
            &&& forall|f: int|
                0 <= f < frames.len() ==> {
                    &&& noise_in(#[trigger] noises[f], 0, noises[f].len() as int, set)
                    &&& frames[f] == column_frame(rows, pads, total, f, noises[f], fg)
                }
        }
}

/// The ready rows are the layout's cells with lock frames up to `total`.
pub open spec fn ready_rows_match(
    cells: Seq<Vec<Vec<Segment>>>,
    rows: Seq<Vec<Vec<ReadySegment>>>,
    total: int,
    order: RevealOrder,
    keep_codes: bool,
) -> bool {
    &&& rows.len() == cells.len()
    &&& forall|i: int| 0 <= i < rows.len() ==> (#[trigger] rows[i])@.len() == cells[i]@.len()
    &&& forall|i: int, ci: int|
        0 <= i < rows.len() && 0 <= ci < rows[i]@.len() ==> (#[trigger] rows[i]@[ci])@.len() == cells[i]@[ci]@.len()
    &&& forall|i: int, ci: int, g: int|
        0 <= i < rows.len() && 0 <= ci < rows[i]@.len() && 0 <= g < rows[i]@[ci]@.len() ==> ready_matches(
            cells[i]@[ci]@[g],
            #[trigger] rows[i]@[ci]@[g],
            total,
            order,
            keep_codes,
        )
}

/// A column animation: the ready rows, the padding after each cell, the scrambles drawn
/// per character, the number of frames over which the scrambled characters lock, and
/// the frames to write.
pub struct ColumnAnimation {
    pub rows: Vec<Vec<Vec<ReadySegment>>>,
    pub paddings: Vec<Vec<usize>>,
    pub scrambles_per_char: usize,
    pub total_frames: usize,
    pub frames: Vec<String>,
}

/// Makes every cell of the layout ready with lock frames up to `lock_total`.
fn ready_rows(
    cells: &Vec<Vec<Vec<Segment>>>,
    lock_total: usize,
    order: RevealOrder,
    keep_codes: bool,
    rng: &mut SmallRng,
) -> (rows: Vec<Vec<Vec<ReadySegment>>>)
    requires
        lock_total >= 1,
    ensures
        ready_rows_match(cells@, rows@, lock_total as int, order, keep_codes),
{
    let mut rows: Vec<Vec<Vec<ReadySegment>>> = Vec::new();
    let mut i: usize = 0;
    while i < cells.len()
        invariant
            i <= cells@.len(),
            lock_total >= 1,
            ready_rows_match(cells@.take(i as int), rows@, lock_total as int, order, keep_codes),
        decreases cells@.len() - i,
    {
        let row = &cells[i];
        let mut ready_row: Vec<Vec<ReadySegment>> = Vec::new();
        let mut ci: usize = 0;
        while ci < row.len()
            invariant
                ci <= row@.len(),
                lock_total >= 1,
                ready_row@.len() == ci,
                forall|c: int| 0 <= c < ci ==> (#[trigger] ready_row@[c])@.len() == row@[c]@.len(),
                forall|c: int, g: int|
                    0 <= c < ci && 0 <= g < ready_row@[c]@.len() ==> ready_matches(
                        row@[c]@[g],
                        #[trigger] ready_row@[c]@[g],
                        lock_total as int,
                        order,
                        keep_codes,
                    ),
            decreases row@.len() - ci,
        {
            let line = build_ready_line(&row[ci], lock_total, order, keep_codes, rng);
            ready_row.push(line);
            ci = ci + 1;
        }
        let ghost before = rows@;
        let ghost rr = ready_row@;
        rows.push(ready_row);
        proof {
            let taken = cells@.take(i + 1);
            assert(taken.drop_last() == cells@.take(i as int));
            assert forall|a: int| 0 <= a < rows@.len() implies (#[trigger] rows@[a])@.len() == taken[a]@.len() by {
                if a < i {
                    assert(rows@[a] == before[a]);
                }
            }
            assert forall|a: int, c: int|
                0 <= a < rows@.len() && 0 <= c < rows@[a]@.len() implies (#[trigger] rows@[a]@[c])@.len() == taken[a]@[c]@.len() by {
                if a < i {
                    assert(rows@[a] == before[a]);
                } else {
                    assert(rows@[a]@ == rr);
                }
            }
            assert forall|a: int, c: int, g: int|
                0 <= a < rows@.len() && 0 <= c < rows@[a]@.len() && 0 <= g < rows@[a]@[c]@.len() implies ready_matches(
                    taken[a]@[c]@[g],
                    #[trigger] rows@[a]@[c]@[g],
                    lock_total as int,
                    order,
                    keep_codes,
                ) by {
                if a < i {
                    assert(rows@[a] == before[a]);
                } else {
                    assert(rows@[a]@ == rr);
                }
            }
        }
        i = i + 1;
    }
    assert(cells@.take(cells@.len() as int) == cells@);
    rows
}

/// Appends `n` newlines to `s`.
fn push_newlines(s: &mut String, n: usize)
    ensures
        final(s)@ == old(s)@ + newlines(n as nat),
{
    let mut i: usize = 0;
    while i < n
        invariant
            i <= n,
            s@ == old(s)@ + newlines(i as nat),
        decreases n - i,
    {
        s.push('\n');
        assert(newlines((i + 1) as nat) == newlines(i as nat).push('\n'));
        i = i + 1;
    }
}

/// The cells of one layout row parsed into segments (cursor codes dropped), and their paddings.
fn parse_row(row: &Vec<(String, usize)>, marker: char) -> (r: (Vec<Vec<Segment>>, Vec<usize>))
    ensures
        r.0@.len() == row@.len(),
        r.1@.len() == row@.len(),
        forall|c: int|
            0 <= c < row@.len() ==> {
                &&& segments_view((#[trigger] r.0@[c])@) == parse_markers_spec(keep_sgr_from(row@[c].0@, 0), marker)
                &&& r.1@[c] == row@[c].1
            },
{
    let mut row_cells: Vec<Vec<Segment>> = Vec::new();
    let mut row_pads: Vec<usize> = Vec::new();
    let mut ci: usize = 0;
    while ci < row.len()
        invariant
            ci <= row@.len(),
            row_cells@.len() == ci,
            row_pads@.len() == ci,
            forall|c: int|
                0 <= c < ci ==> {
                    &&& segments_view((#[trigger] row_cells@[c])@) == parse_markers_spec(keep_sgr_from(row@[c].0@, 0), marker)
                    &&& row_pads@[c] == row@[c].1
                },
        decreases row@.len() - ci,
    {
        let cell = &row[ci];
        let content = strip_cursor_codes(cell_text_of(cell).as_str());
        let segs = parse_markers(content.as_str(), marker);
        row_cells.push(segs);
        row_pads.push(cell_pad_of(cell));
        ci = ci + 1;
    }
    (row_cells, row_pads)
}

/// The text of a layout cell.
pub(crate) fn cell_text_of(cell: &(String, usize)) -> (s: &String)
    ensures
        s@ == cell.0@,
{
    &cell.0
}

/// The padding of a layout cell.
pub(crate) fn cell_pad_of(cell: &(String, usize)) -> (p: usize)
    ensures
        p == cell.1,
{
    cell.1
}

/// Frames `0..=total_frames` of the column animation of the ready `rows`.
#[verifier::spinoff_prover]
pub(crate) fn render_all_frames(
    rows: &Vec<Vec<Vec<ReadySegment>>>,
    paddings: &Vec<Vec<usize>>,
    total_frames: usize,
    charset: ResolvedCharSet,
    fg: &String,
    rng: &mut SmallRng,
) -> (frames: Vec<String>)
    requires
        rows_shape_ok(rows@, paddings@),
    ensures
        column_frames_ok(rows@, paddings@, total_frames as int, charset, fg@, frames_view(frames@)),
{
    let n_lines = rows.len();
    let hide = hide_cursor();
    let up = move_up(#[verifier::truncate] (n_lines as u16));
    let col0 = move_to_column(0);
    let reset = reset_color();
    let show = show_cursor();
    let ghost set = charset;
    let mut frames: Vec<String> = Vec::new();
    let ghost mut noises: Seq<Seq<char>> = seq![];
    let last_frame: usize = total_frames;
    let mut frame: usize = 0;
    loop
        invariant_except_break
            frames@.len() == frame,
            noises.len() == frame,
            forall|f: int|
                0 <= f < frame ==> {
                    &&& noise_in(#[trigger] noises[f], 0, noises[f].len() as int, set)
                    &&& frames@[f]@ == column_frame(rows@, paddings@, total_frames as int, f, noises[f], fg@)
                },
        invariant
            frame <= last_frame,
            last_frame == total_frames,
            n_lines == rows@.len(),
            rows_shape_ok(rows@, paddings@),
            hide@ == hide_seq(),
            up@ == up_seq((n_lines as u16) as nat),
            col0@ == column_seq(0),
            reset@ == reset_seq(),
            show@ == show_seq(),
            set == charset,
        ensures
            frames@.len() == total_frames + 1,
            noises.len() == total_frames + 1,
            forall|f: int|
                0 <= f < total_frames + 1 ==> {
                    &&& noise_in(#[trigger] noises[f], 0, noises[f].len() as int, set)
                    &&& frames@[f]@ == column_frame(rows@, paddings@, total_frames as int, f, noises[f], fg@)
                },
        decreases last_frame - frame,
    {
        let mut text = if frame == 0 {
            let mut t = hide.clone();
            push_newlines(&mut t, n_lines);
            t.append(up.as_str());
            t
        } else {
            up.clone()
        };
        let ghost lead = text@;
        let shown_frame = if total_frames == 0 { 1 } else { frame };
        let mut noise: Vec<char> = Vec::new();
        render_frame_rows(&mut text, &rows, &paddings, shown_frame, charset, &col0, fg, &reset, &mut noise, rng);
        if frame == total_frames {
            text.append(show.as_str());
        }
        proof {
            assert(noise@.take(0) == Seq::<char>::empty());
            assert(text@ == column_frame(rows@, paddings@, total_frames as int, frame as int, noise@, fg@));
        }
        let ghost nv = noise@;
        let ghost old_frames = frames@;
        let ghost old_noises = noises;
        frames.push(text);
        proof {
            noises = noises.push(nv);
            assert forall|f: int| 0 <= f < frame + 1 implies {
                &&& noise_in(#[trigger] noises[f], 0, noises[f].len() as int, set)
                &&& frames@[f]@ == column_frame(rows@, paddings@, total_frames as int, f, noises[f], fg@)
            } by {
                if f < frame {
                    assert(noises[f] == old_noises[f]);
                    assert(frames@[f] == old_frames[f]);
                }
            }
        }
        if frame == last_frame {
            break;
        }
        frame = frame + 1;
    }
    proof {
        assert(frames_view(frames@).len() == total_frames + 1);
        assert forall|f: int| 0 <= f < frames_view(frames@).len() implies {
            &&& noise_in(#[trigger] noises[f], 0, noises[f].len() as int, set)
            &&& frames_view(frames@)[f] == column_frame(rows@, paddings@, total_frames as int, f, noises[f], fg@)
        } by {
            assert(frames_view(frames@)[f] == frames@[f]@);
        }
    }
    frames
}

/// The frames of a column animation over `layout`: how many frames the scrambled
/// characters take to lock (the widest scrambled region times a random count of
/// scrambles per character), the ready rows, and the frames themselves.
#[verifier::spinoff_prover]
pub fn plan_columns(layout: ColumnLayout, config: &AnimConfig, keep_codes: bool, rng: &mut SmallRng) -> (a: ColumnAnimation)
    requires
        layout_shape_ok(layout),
        layout.max_chars > 0 ==> config.scrambles_min <= config.scrambles_max,
        layout.max_chars * config.scrambles_max <= usize::MAX,
    ensures
        a.paddings == layout.paddings,
        ready_rows_match(
            layout.cells@,
            a.rows@,
            if a.total_frames > 0 { a.total_frames as int } else { 1 },
            config.order,
            keep_codes,
        ),
        layout.max_chars == 0 ==> a.total_frames == 0,
        layout.cells@.len() > 0 && layout.max_chars > 0 ==> config.scrambles_min <= a.scrambles_per_char
            <= config.scrambles_max,
        a.total_frames == layout.max_chars * a.scrambles_per_char,
        layout.cells@.len() == 0 ==> a.frames@.len() == 0,
        layout.cells@.len() > 0 ==> exists|fg: Seq<char>|
            noise_code_ok(config.color, fg) && column_frames_ok(
                a.rows@,
                a.paddings@,
                a.total_frames as int,
                config.charset,
                fg,
                frames_view(a.frames@),
            ),
{
    let ColumnLayout { cells, paddings, max_chars } = layout;
    let n_lines = cells.len();
    if n_lines == 0 {
        assert(max_chars * 0 == 0) by (nonlinear_arith);
        return ColumnAnimation { rows: Vec::new(), paddings, scrambles_per_char: 0, total_frames: 0, frames: Vec::new() };
    }
    let fg = noise_code(&config.color);
    let per_char: usize = if max_chars == 0 {
        1
    } else {
        random_in(rng, config.scrambles_min as usize, config.scrambles_max as usize)
    };
    proof {
        if max_chars > 0 {
            assert(max_chars * per_char <= max_chars * config.scrambles_max) by (nonlinear_arith)
                requires
                    per_char <= config.scrambles_max,
            ;
        }
    }
    let total_frames = max_chars * per_char;
    let lock_total = if total_frames > 1 { total_frames } else { 1 };
    let rows = ready_rows(&cells, lock_total, config.order, keep_codes, rng);
    proof {
        assert(rows_shape_ok(rows@, paddings@)) by {
            assert forall|i: int| 0 <= i < rows@.len() implies (#[trigger] paddings@[i])@.len() == rows@[i]@.len() by {
                assert(rows@[i]@.len() == cells@[i]@.len());
            }
        }
    }
    let frames = render_all_frames(&rows, &paddings, total_frames, config.charset, &fg, rng);
    let a = ColumnAnimation { rows, paddings, scrambles_per_char: per_char, total_frames, frames };
    a
}

// ── Size limits ──────────────────────────────────────────────────────────────

/// Scrambled text of every segment, times `scrambles_max`, fits in a `usize`.
pub open spec fn segs_fit(segs: Seq<Segment>, scrambles_max: int, keep_codes: bool) -> bool {
    forall|g: int| 0 <= g < segs.len() ==> #[trigger] scrambled_len(segs[g], keep_codes) * scrambles_max <= usize::MAX
}

pub proof fn lemma_max_in_segs_fits(segs: Seq<Segment>, scrambles_max: int, keep_codes: bool)
    requires
        0 <= scrambles_max,
        segs_fit(segs, scrambles_max, keep_codes),
    ensures
        max_in_segs(segs, keep_codes) * scrambles_max <= usize::MAX,
    decreases segs.len(),
{
    if segs.len() == 0 {
        assert(0int * scrambles_max == 0) by (nonlinear_arith);
    } else {
        assert(segs_fit(segs.drop_last(), scrambles_max, keep_codes)) by {
            assert forall|g: int| 0 <= g < segs.drop_last().len() implies #[trigger] scrambled_len(
                segs.drop_last()[g],
                keep_codes,
            ) * scrambles_max <= usize::MAX by {
                assert(segs.drop_last()[g] == segs[g]);
            }
        }
        lemma_max_in_segs_fits(segs.drop_last(), scrambles_max, keep_codes);
        assert(scrambled_len(segs[segs.len() - 1], keep_codes) * scrambles_max <= usize::MAX);
    }
}

pub proof fn lemma_max_in_row_fits(row: Seq<Vec<Segment>>, scrambles_max: int, keep_codes: bool)
    requires
        0 <= scrambles_max,
        forall|c: int| 0 <= c < row.len() ==> segs_fit((#[trigger] row[c])@, scrambles_max, keep_codes),
    ensures
        max_in_row(row, keep_codes) * scrambles_max <= usize::MAX,
    decreases row.len(),
{
    if row.len() == 0 {
        assert(0int * scrambles_max == 0) by (nonlinear_arith);
    } else {
        assert forall|c: int| 0 <= c < row.drop_last().len() implies segs_fit(
            (#[trigger] row.drop_last()[c])@,
            scrambles_max,
            keep_codes,
        ) by {
            assert(row.drop_last()[c] == row[c]);
        }
        lemma_max_in_row_fits(row.drop_last(), scrambles_max, keep_codes);
        assert(segs_fit(row[row.len() - 1]@, scrambles_max, keep_codes));
        lemma_max_in_segs_fits(row.last()@, scrambles_max, keep_codes);
    }
}

pub proof fn lemma_max_in_cells_fits(cells: Seq<Vec<Vec<Segment>>>, scrambles_max: int, keep_codes: bool)
    requires
        0 <= scrambles_max,
        forall|i: int, c: int|
            0 <= i < cells.len() && 0 <= c < cells[i]@.len() ==> segs_fit(
                (#[trigger] cells[i]@[c])@,
                scrambles_max,
                keep_codes,
            ),
    ensures
        max_in_cells(cells, keep_codes) * scrambles_max <= usize::MAX,
    decreases cells.len(),
{
    if cells.len() == 0 {
        assert(0int * scrambles_max == 0) by (nonlinear_arith);
    } else {
        assert forall|i: int, c: int|
            0 <= i < cells.drop_last().len() && 0 <= c < cells.drop_last()[i]@.len() implies segs_fit(
                (#[trigger] cells.drop_last()[i]@[c])@,
                scrambles_max,
                keep_codes,
            ) by {
            assert(cells.drop_last()[i] == cells[i]);
        }
        lemma_max_in_cells_fits(cells.drop_last(), scrambles_max, keep_codes);
        let last = cells.last();
        assert(last == cells[cells.len() - 1]);
        assert forall|c: int| 0 <= c < last@.len() implies segs_fit((#[trigger] last@[c])@, scrambles_max, keep_codes) by {
            assert(segs_fit(cells[cells.len() - 1]@[c]@, scrambles_max, keep_codes));
        }
        lemma_max_in_row_fits(last@, scrambles_max, keep_codes);
    }
}

/// The segments of the cell in row `i`, column `ci` of `prep`: its text with cursor
/// codes dropped, split at `marker`.
pub open spec fn cell_segments(prep: Seq<Seq<Seq<char>>>, i: int, ci: int, marker: char) -> Seq<(bool, Seq<char>)> {
    parse_markers_spec(keep_sgr_from(cell_text(prep, i, ci), 0), marker)
}

/// Some cell of the columns `prep` has a character to scramble.
pub open spec fn scrambles_any(prep: Seq<Seq<Seq<char>>>, marker: char, keep_codes: bool) -> bool {
    exists|i: int, ci: int, g: int|
        0 <= i < layout_height(prep) && 0 <= ci < prep.len() && 0 <= g < cell_segments(prep, i, ci, marker).len()
            && region_len(#[trigger] cell_segments(prep, i, ci, marker)[g], keep_codes) > 0
}

proof fn lemma_max_in_segs_pos(segs: Seq<Segment>, keep_codes: bool)
    ensures
        max_in_segs(segs, keep_codes) > 0 ==> exists|g: int|
            0 <= g < segs.len() && #[trigger] scrambled_len(segs[g], keep_codes) > 0,
        forall|g: int| 0 <= g < segs.len() ==> #[trigger] scrambled_len(segs[g], keep_codes) <= max_in_segs(segs, keep_codes),
    decreases segs.len(),
{
    if segs.len() > 0 {
        let rest = segs.drop_last();
        lemma_max_in_segs_pos(rest, keep_codes);
        assert forall|g: int| 0 <= g < segs.len() implies #[trigger] scrambled_len(segs[g], keep_codes) <= max_in_segs(
            segs,
            keep_codes,
        ) by {
            if g < rest.len() {
                assert(rest[g] == segs[g]);
            }
        }
        if max_in_segs(segs, keep_codes) > 0 {
            if scrambled_len(segs.last(), keep_codes) > max_in_segs(rest, keep_codes) {
                assert(scrambled_len(segs[segs.len() - 1], keep_codes) > 0);
            } else {
                let g = choose|g: int| 0 <= g < rest.len() && #[trigger] scrambled_len(rest[g], keep_codes) > 0;
                assert(rest[g] == segs[g]);
            }
        }
    }
}

proof fn lemma_max_in_row_pos(row: Seq<Vec<Segment>>, keep_codes: bool)
    ensures
        max_in_row(row, keep_codes) > 0 ==> exists|c: int, g: int|
            0 <= c < row.len() && 0 <= g < row[c]@.len() && #[trigger] scrambled_len(row[c]@[g], keep_codes) > 0,
        forall|c: int, g: int|
            0 <= c < row.len() && 0 <= g < row[c]@.len() ==> #[trigger] scrambled_len(row[c]@[g], keep_codes)
                <= max_in_row(row, keep_codes),
    decreases row.len(),
{
    if row.len() > 0 {
        let rest = row.drop_last();
        let last = row.last();
        lemma_max_in_row_pos(rest, keep_codes);
        lemma_max_in_segs_pos(last@, keep_codes);
        assert(last == row[row.len() - 1]);
        assert forall|c: int, g: int| 0 <= c < row.len() && 0 <= g < row[c]@.len() implies #[trigger] scrambled_len(
            row[c]@[g],
            keep_codes,
        ) <= max_in_row(row, keep_codes) by {
            if c < rest.len() {
                assert(rest[c] == row[c]);
            } else {
                assert(scrambled_len(last@[g], keep_codes) <= max_in_segs(last@, keep_codes));
            }
        }
        if max_in_row(row, keep_codes) > 0 {
            if max_in_segs(last@, keep_codes) > max_in_row(rest, keep_codes) {
                let g = choose|g: int| 0 <= g < last@.len() && #[trigger] scrambled_len(last@[g], keep_codes) > 0;
                assert(scrambled_len(row[row.len() - 1]@[g], keep_codes) > 0);
            } else {
                let (c, g) = choose|c: int, g: int|
                    0 <= c < rest.len() && 0 <= g < rest[c]@.len() && #[trigger] scrambled_len(rest[c]@[g], keep_codes) > 0;
                assert(rest[c] == row[c]);
                assert(scrambled_len(row[c]@[g], keep_codes) > 0);
            }
        }
    }
}

proof fn lemma_max_in_cells_pos(cells: Seq<Vec<Vec<Segment>>>, keep_codes: bool)
    ensures
        max_in_cells(cells, keep_codes) > 0 ==> exists|i: int, c: int, g: int|
            0 <= i < cells.len() && 0 <= c < cells[i]@.len() && 0 <= g < cells[i]@[c]@.len()
                && #[trigger] scrambled_len(cells[i]@[c]@[g], keep_codes) > 0,
        forall|i: int, c: int, g: int|
            0 <= i < cells.len() && 0 <= c < cells[i]@.len() && 0 <= g < cells[i]@[c]@.len() ==> #[trigger] scrambled_len(
                cells[i]@[c]@[g],
                keep_codes,
            ) <= max_in_cells(cells, keep_codes),
    decreases cells.len(),
{
    if cells.len() > 0 {
        let rest = cells.drop_last();
        let last = cells.last();
        lemma_max_in_cells_pos(rest, keep_codes);
        lemma_max_in_row_pos(last@, keep_codes);
        assert(last == cells[cells.len() - 1]);
        assert forall|i: int, c: int, g: int|
            0 <= i < cells.len() && 0 <= c < cells[i]@.len() && 0 <= g < cells[i]@[c]@.len() implies #[trigger] scrambled_len(
            cells[i]@[c]@[g],
            keep_codes,
        ) <= max_in_cells(cells, keep_codes) by {
            if i < rest.len() {
                assert(rest[i] == cells[i]);
            } else {
                assert(scrambled_len(last@[c]@[g], keep_codes) <= max_in_row(last@, keep_codes));
            }
        }
        if max_in_cells(cells, keep_codes) > 0 {
            if max_in_row(last@, keep_codes) > max_in_cells(rest, keep_codes) {
                let (c, g) = choose|c: int, g: int|
                    0 <= c < last@.len() && 0 <= g < last@[c]@.len() && #[trigger] scrambled_len(last@[c]@[g], keep_codes) > 0;
                assert(scrambled_len(cells[cells.len() - 1]@[c]@[g], keep_codes) > 0);
            } else {
                let (i, c, g) = choose|i: int, c: int, g: int|
                    0 <= i < rest.len() && 0 <= c < rest[i]@.len() && 0 <= g < rest[i]@[c]@.len()
                        && #[trigger] scrambled_len(rest[i]@[c]@[g], keep_codes) > 0;
                assert(rest[i] == cells[i]);
                assert(scrambled_len(cells[i]@[c]@[g], keep_codes) > 0);
            }
        }
    }
}

/// Every scrambled region of every cell of the columns `prep`, counted as `keep_codes`
/// says, times `scrambles_max` (the most frames its scrambles can take) fits in a `usize`.
pub open spec fn regions_fit(prep: Seq<Seq<Seq<char>>>, marker: char, scrambles_max: int, keep_codes: bool) -> bool {
    forall|i: int, ci: int, g: int|
        0 <= i < layout_height(prep) && 0 <= ci < prep.len() && 0 <= g < cell_segments(prep, i, ci, marker).len()
            ==> region_len(#[trigger] cell_segments(prep, i, ci, marker)[g], keep_codes) * scrambles_max <= usize::MAX
}

/// The arithmetic of laying out and animating the columns `prep` fits in a `usize`: every
/// column but the last widened by `gap`, and every scrambled region times `scrambles_max`.
pub open spec fn layout_fits(prep: Seq<Seq<Seq<char>>>, gap: int, marker: char, scrambles_max: int, keep_codes: bool) -> bool {
    &&& widths_fit(prep, gap, marker)
    &&& regions_fit(prep, marker, scrambles_max, keep_codes)
}

/// The widest scrambled region of a layout of fitting regions, times `scrambles_max`, fits.
pub proof fn lemma_layout_fits(
    lay: ColumnLayout,
    prep: Seq<Seq<Seq<char>>>,
    gap: int,
    marker: char,
    scrambles_max: int,
    keep_codes: bool,
)
    requires
        0 <= scrambles_max,
        layout_of(lay, prep, gap, marker, keep_codes),
        regions_fit(prep, marker, scrambles_max, keep_codes),
    ensures
        lay.max_chars * scrambles_max <= usize::MAX,
{
    assert forall|i: int, c: int| 0 <= i < lay.cells@.len() && 0 <= c < lay.cells@[i]@.len() implies segs_fit(
        (#[trigger] lay.cells@[i]@[c])@,
        scrambles_max,
        keep_codes,
    ) by {
        let segs = lay.cells@[i]@[c]@;
        assert(segments_view(segs) == cell_segments(prep, i, c, marker));
        assert forall|g: int| 0 <= g < segs.len() implies #[trigger] scrambled_len(segs[g], keep_codes) * scrambles_max
            <= usize::MAX by {
            assert(segments_view(segs)[g] == segs[g]@);
            assert(region_len(cell_segments(prep, i, c, marker)[g], keep_codes) * scrambles_max <= usize::MAX);
        }
    }
    lemma_max_in_cells_fits(lay.cells@, scrambles_max, keep_codes);
}

/// A layout has characters to scramble exactly when its columns do.
pub proof fn lemma_layout_scrambles(lay: ColumnLayout, prep: Seq<Seq<Seq<char>>>, gap: int, marker: char, keep_codes: bool)
    requires
        layout_of(lay, prep, gap, marker, keep_codes),
    ensures
        lay.max_chars > 0 <==> scrambles_any(prep, marker, keep_codes),
{
    lemma_max_in_cells_pos(lay.cells@, keep_codes);
    if lay.max_chars > 0 {
        let (i, c, g) = choose|i: int, c: int, g: int|
            0 <= i < lay.cells@.len() && 0 <= c < lay.cells@[i]@.len() && 0 <= g < lay.cells@[i]@[c]@.len()
                && #[trigger] scrambled_len(lay.cells@[i]@[c]@[g], keep_codes) > 0;
        assert(segments_view(lay.cells@[i]@[c]@) == cell_segments(prep, i, c, marker));
        assert(segments_view(lay.cells@[i]@[c]@)[g] == lay.cells@[i]@[c]@[g]@);
        assert(region_len(cell_segments(prep, i, c, marker)[g], keep_codes) > 0);
    }
    if scrambles_any(prep, marker, keep_codes) {
        let (i, c, g) = choose|i: int, c: int, g: int|
            0 <= i < layout_height(prep) && 0 <= c < prep.len() && 0 <= g < cell_segments(prep, i, c, marker).len()
                && region_len(#[trigger] cell_segments(prep, i, c, marker)[g], keep_codes) > 0;
        assert(segments_view(lay.cells@[i]@[c]@) == cell_segments(prep, i, c, marker));
        assert(segments_view(lay.cells@[i]@[c]@)[g] == lay.cells@[i]@[c]@[g]@);
        assert(scrambled_len(lay.cells@[i]@[c]@[g], keep_codes) > 0);
    }
}

// ── Writing column animations ────────────────────────────────────────────────

/// `a` animates the laid-out `lay` as `config` says, with colour code `fg`: its rows are
/// the layout's cells made ready (see `scramble_units` for `keep_codes`), the scrambled
/// characters lock over the widest scrambled region times the scrambles drawn per
/// character, and its frames are those of `column_frames_ok` (none for an empty layout).
pub open spec fn animation_of(lay: ColumnLayout, config: AnimConfig, a: ColumnAnimation, fg: Seq<char>, keep_codes: bool) -> bool {
    &&& a.paddings == lay.paddings
    &&& ready_rows_match(
        lay.cells@,
        a.rows@,
        if a.total_frames > 0 { a.total_frames as int } else { 1 },
        config.order,
        keep_codes,
    )
    &&& a.total_frames == lay.max_chars * a.scrambles_per_char
    &&& lay.cells@.len() > 0 && lay.max_chars > 0 ==> config.scrambles_min <= a.scrambles_per_char <= config.scrambles_max
    &&& lay.cells@.len() == 0 ==> a.frames@.len() == 0
    &&& lay.cells@.len() > 0 ==> noise_code_ok(config.color, fg) && column_frames_ok(
        a.rows@,
        a.paddings@,
        a.total_frames as int,
        config.charset,
        fg,
        frames_view(a.frames@),
    )
}

/// `a` animates the columns `cols` on a terminal `width` columns wide (when known), through
/// the layout `lay`, with colour code `fg`.
pub open spec fn column_animation_ok(
    cols: Seq<Seq<Seq<char>>>,
    gap: int,
    marker: char,
    config: AnimConfig,
    width: Option<u16>,
    lay: ColumnLayout,
    a: ColumnAnimation,
    fg: Seq<char>,
) -> bool {
    &&& layout_of(lay, prepared_columns(cols, config.valign, width, gap, marker), gap, marker, true)
    &&& animation_of(lay, config, a, fg, true)
}

/// The frames of the column animation of `cols` on a terminal `width` columns wide.
pub fn column_frames(
    cols: &[Vec<String>],
    gap: usize,
    marker: char,
    config: &AnimConfig,
    width: Option<u16>,
    rng: &mut SmallRng,
) -> (a: ColumnAnimation)
    requires
        config.scrambles_min <= config.scrambles_max || !scrambles_any(
            prepared_columns(columns_view(cols@), config.valign, width, gap as int, marker),
            marker,
            true,
        ),
        layout_fits(
            prepared_columns(columns_view(cols@), config.valign, width, gap as int, marker),
            gap as int,
            marker,
            config.scrambles_max as int,
            true,
        ),
    ensures
        exists|lay: ColumnLayout, fg: Seq<char>|
            column_animation_ok(columns_view(cols@), gap as int, marker, *config, width, lay, a, fg),
        cols@.len() == 0 ==> a.frames@.len() == 0,
{
    let ghost prep = prepared_columns(columns_view(cols@), config.valign, width, gap as int, marker);
    let lay = prepare_columns(cols, gap, marker, config.valign, width, true);
    proof {
        lemma_layout_fits(lay, prep, gap as int, marker, config.scrambles_max as int, true);
        lemma_layout_scrambles(lay, prep, gap as int, marker, true);
    }
    let ghost lay_copy = lay;
    let a = plan_columns(lay, config, true, rng);
    proof {
        if lay_copy.cells@.len() > 0 {
            let fg = choose|fg: Seq<char>|
                noise_code_ok(config.color, fg) && column_frames_ok(
                    a.rows@,
                    a.paddings@,
                    a.total_frames as int,
                    config.charset,
                    fg,
                    frames_view(a.frames@),
                );
            assert(column_animation_ok(columns_view(cols@), gap as int, marker, *config, width, lay_copy, a, fg));
        } else {
            assert(column_animation_ok(columns_view(cols@), gap as int, marker, *config, width, lay_copy, a, seq![]));
        }
    }
    a
}

/// Writes the whole column animation of `cols` to `out`, frame after frame, without
/// pausing, fitted to the width of the terminal when it can be told.
pub fn animate_columns(cols: &[Vec<String>], gap: usize, marker: char, config: &AnimConfig, out: &mut Vec<u8>)
    requires
        config.scrambles_min <= config.scrambles_max || forall|width: Option<u16>|
            !scrambles_any(
                #[trigger] prepared_columns(columns_view(cols@), config.valign, width, gap as int, marker),
                marker,
                true,
            ),
        forall|width: Option<u16>|
            layout_fits(
                #[trigger] prepared_columns(columns_view(cols@), config.valign, width, gap as int, marker),
                gap as int,
                marker,
                config.scrambles_max as int,
                true,
            ),
    ensures
        cols@.len() == 0 ==> final(out)@ == old(out)@,
        cols@.len() > 0 ==> exists|width: Option<u16>, lay: ColumnLayout, a: ColumnAnimation, fg: Seq<char>|
            column_animation_ok(columns_view(cols@), gap as int, marker, *config, width, lay, a, fg) && final(out)@
                == old(out)@ + frames_bytes(frames_view(a.frames@)),
{
    if cols.len() == 0 {
        return;
    }
    let width = terminal_width();
    assert(config.scrambles_min <= config.scrambles_max || !scrambles_any(
        prepared_columns(columns_view(cols@), config.valign, width, gap as int, marker),
        marker,
        true,
    ));
    assert(layout_fits(
        prepared_columns(columns_view(cols@), config.valign, width, gap as int, marker),
        gap as int,
        marker,
        config.scrambles_max as int,
        true,
    ));
    let mut rng = new_rng();
    let a = column_frames(cols, gap, marker, config, width, &mut rng);
    write_frames(&a.frames, out);
}

/// The lines of `text`, split at every newline.
pub fn split_lines(text: &str) -> (lines: Vec<String>)
    ensures
        crate::layout::strings_view(lines@) == split_at_markers(text@, '\n'),
{
    let v = chars_of(text);
    let n = v.len();
    let mut lines: Vec<String> = Vec::new();
    let mut current = String::new();
    let mut i: usize = 0;
    assert(v@.take(0) == Seq::<char>::empty());
    while i < n
        invariant
            i <= n,
            n == v@.len(),
            split_at_markers(v@.take(i as int), '\n').len() >= 1,
            crate::layout::strings_view(lines@) == split_at_markers(v@.take(i as int), '\n').drop_last(),
            current@ == split_at_markers(v@.take(i as int), '\n').last(),
        decreases n - i,
    {
        let ghost p = split_at_markers(v@.take(i as int), '\n');
        let ch = v[i];
        proof {
            assert(v@.take(i + 1).drop_last() == v@.take(i as int));
            assert(v@.take(i + 1).last() == ch);
        }
        if ch == '\n' {
            let line = current;
            current = String::new();
            let ghost before = lines@;
            lines.push(line);
            proof {
                let q = split_at_markers(v@.take(i + 1), '\n');
                assert(q == p.push(seq![]));
                assert(crate::layout::strings_view(lines@) == crate::layout::strings_view(before).push(line@));
                assert(p == p.drop_last().push(p.last()));
            }
        } else {
            current.push(ch);
            proof {
                let q = split_at_markers(v@.take(i + 1), '\n');
                assert(q.drop_last() == p.drop_last());
            }
        }
        i = i + 1;
    }
    proof {
        assert(v@.take(n as int) == v@);
        let p = split_at_markers(v@, '\n');
        assert(p == p.drop_last().push(p.last()));
    }
    let ghost before = lines@;
    lines.push(current);
    assert(crate::layout::strings_view(lines@) == crate::layout::strings_view(before).push(lines@.last()@));
    lines
}

/// Writes the animation of `text` in which only the regions between `marker` characters
/// scramble: its lines are animated as a single column, without pausing.
pub fn animate_marked(text: &str, marker: char, config: &AnimConfig, out: &mut Vec<u8>)
    requires
        config.scrambles_min <= config.scrambles_max || forall|width: Option<u16>|
            !scrambles_any(
                #[trigger] prepared_columns(seq![split_at_markers(text@, '\n')], config.valign, width, 0, marker),
                marker,
                true,
            ),
        forall|width: Option<u16>|
            regions_fit(
                #[trigger] prepared_columns(seq![split_at_markers(text@, '\n')], config.valign, width, 0, marker),
                marker,
                config.scrambles_max as int,
                true,
            ),
    ensures
        exists|width: Option<u16>, lay: ColumnLayout, a: ColumnAnimation, fg: Seq<char>|
            column_animation_ok(seq![split_at_markers(text@, '\n')], 0, marker, *config, width, lay, a, fg) && final(out)@
                == old(out)@ + frames_bytes(frames_view(a.frames@)),
{
    let lines = split_lines(text);
    let mut cols: Vec<Vec<String>> = Vec::new();
    cols.push(lines);
    proof {
        let cv = columns_view(cols@);
        assert(cv == seq![split_at_markers(text@, '\n')]);
        assert forall|width: Option<u16>| layout_fits(
            #[trigger] prepared_columns(cv, config.valign, width, 0, marker),
            0,
            marker,
            config.scrambles_max as int,
            true,
        ) by {
            let prep = prepared_columns(cv, config.valign, width, 0, marker);
            assert(regions_fit(prep, marker, config.scrambles_max as int, true));
            assert(prep.len() == 1);
        }
    }
    animate_columns(cols.as_slice(), 0, marker, config, out);
}

} // verus!
