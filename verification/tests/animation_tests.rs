use deob::animator::{animate, animate_marked, column_frames, plan_animation, AnimConfig, RevealOrder};
use deob::charset::{random_char, ResolvedCharSet};
use deob::cli::{AnsiColor, VAlign};
use deob::integrations::{animate_side_by_side, side_by_side_frames};
use deob::layout::strip_ansi;
use rand::rngs::SmallRng;
use rand::SeedableRng;
use std::time::Duration;

const HIDE: &str = "\x1b[?25l";
const SHOW: &str = "\x1b[?25h";
const COL0: &str = "\x1b[1G";
const RESET: &str = "\x1b[0m";

fn config(order: RevealOrder, min: u32, max: u32) -> AnimConfig {
    AnimConfig {
        speed: Duration::from_millis(0),
        color: AnsiColor::Green,
        charset: ResolvedCharSet::Hacker,
        order,
        scrambles_min: min,
        scrambles_max: max,
        valign: VAlign::Top,
    }
}

fn strings(v: &[&str]) -> Vec<String> {
    v.iter().map(|s| s.to_string()).collect()
}

/// The colour code written before noise: the 256-colour code of green, or the empty
/// SGR that crossterm writes when colours are turned off.
fn is_green_code(code: &str) -> bool {
    code == "\x1b[38;5;2m" || code == "\x1b[m"
}

// ── Single string ────────────────────────────────────────────────────────────

#[test]
fn single_string_frames_reveal_left_to_right() {
    let mut rng = SmallRng::seed_from_u64(3);
    let a = plan_animation("xyz", &config(RevealOrder::Ordered, 1, 1), &mut rng);
    assert_eq!(a.schedule, vec![0, 1, 2]);
    assert_eq!(a.scrambles, vec![1, 1, 1]);
    assert_eq!(a.frames.len(), 5);
    assert!(a.frames[0].starts_with(&format!("{HIDE}{COL0}")));
    let last = a.frames.last().unwrap();
    assert!(last.starts_with(COL0));
    assert!(last.ends_with(&format!("xyz{RESET}{SHOW}\n")));
    let fg = &last[COL0.len()..last.len() - format!("xyz{RESET}{SHOW}\n").len()];
    assert!(is_green_code(fg));
    // frame 1 + p shows the first p characters real, the others as noise
    for p in 0..3 {
        let row: Vec<char> = a.frames[1 + p][COL0.len() + fg.len()..].chars().collect();
        assert_eq!(row.len(), 3);
        for (j, c) in row.iter().enumerate() {
            if j < p {
                assert_eq!(*c, "xyz".chars().nth(j).unwrap());
            } else {
                assert!("0123456789ABCDEF@#$%^&*!?".contains(*c));
            }
        }
    }
}

#[test]
fn locked_positions_stay_locked() {
    let text = "wxyz";
    let mut rng = SmallRng::seed_from_u64(11);
    let a = plan_animation(text, &config(RevealOrder::Random, 1, 3), &mut rng);
    let real: Vec<char> = text.chars().collect();
    let mut shown_before = vec![false; real.len()];
    for frame in &a.frames {
        let row: Vec<char> = strip_ansi(frame).trim_end_matches('\n').chars().collect();
        assert_eq!(row.len(), real.len());
        for j in 0..real.len() {
            let shown = row[j] == real[j];
            assert!(shown || !shown_before[j], "position {j} unlocked again");
            shown_before[j] = shown;
        }
    }
    assert!(shown_before.iter().all(|s| *s));
}

#[test]
fn white_space_is_never_scrambled() {
    let mut rng = SmallRng::seed_from_u64(5);
    let a = plan_animation("a b", &config(RevealOrder::Random, 2, 2), &mut rng);
    for frame in &a.frames {
        let row: Vec<char> = strip_ansi(frame).trim_end_matches('\n').chars().collect();
        assert_eq!(row[1], ' ');
    }
}

#[test]
fn empty_text_writes_nothing() {
    let mut buf: Vec<u8> = Vec::new();
    animate("", &config(RevealOrder::Ordered, 1, 1), &mut buf);
    assert!(buf.is_empty());
}

#[test]
fn animate_writes_every_frame_in_order() {
    let mut buf: Vec<u8> = Vec::new();
    animate("hi", &config(RevealOrder::Ordered, 2, 2), &mut buf);
    let out = String::from_utf8(buf).unwrap();
    assert!(out.starts_with(HIDE));
    assert!(out.ends_with(&format!("hi{RESET}{SHOW}\n")));
    // opening frame, two noise frames per character, closing frame
    assert_eq!(out.matches(COL0).count(), 6);
}

// ── Columns ──────────────────────────────────────────────────────────────────

#[test]
fn columns_end_on_their_text() {
    let cols = vec![strings(&["~ab~", "c"]), strings(&["~xyz~ q"])];
    let mut rng = SmallRng::seed_from_u64(1);
    let a = column_frames(&cols, 1, '~', &config(RevealOrder::Random, 1, 1), None, &mut rng);
    assert_eq!(a.scrambles_per_char, 1);
    assert_eq!(a.total_frames, 3);
    assert_eq!(a.frames.len(), 4);
    assert!(a.frames[0].starts_with(&format!("{HIDE}\n\n\x1b[2A{COL0}")));
    assert_eq!(
        a.frames.last().unwrap(),
        &format!("\x1b[2A{COL0}ab xyz q\n{COL0}c  \n{SHOW}")
    );
}

#[test]
fn region_ending_in_colour_codes_shows_without_them() {
    let cols = vec![strings(&["~\x1b[31mab\x1b[0m~"]), strings(&["x"])];
    let mut rng = SmallRng::seed_from_u64(9);
    let a = column_frames(&cols, 1, '~', &config(RevealOrder::Random, 2, 2), None, &mut rng);
    assert_eq!(a.total_frames, 4);
    assert_eq!(
        a.frames.last().unwrap(),
        &format!("\x1b[1A{COL0}\x1b[31mab x\n{SHOW}")
    );
}

#[test]
fn columns_without_markers_take_one_frame() {
    let cols = vec![strings(&["left"]), strings(&["right"])];
    let mut rng = SmallRng::seed_from_u64(2);
    let a = column_frames(&cols, 2, '~', &config(RevealOrder::Ordered, 1, 4), None, &mut rng);
    assert_eq!(a.total_frames, 0);
    assert_eq!(a.frames, vec![format!("{HIDE}\n\x1b[1A{COL0}left  right\n{SHOW}")]);
}

#[test]
fn columns_fit_a_narrow_terminal() {
    let cols = vec![strings(&["abcdef"]), strings(&["uvwxyz"])];
    let mut rng = SmallRng::seed_from_u64(2);
    let a = column_frames(&cols, 1, '~', &config(RevealOrder::Ordered, 1, 1), Some(9), &mut rng);
    // the first column keeps its 6 characters, the gap takes 1, the second gets the 2 left
    assert_eq!(a.frames, vec![format!("{HIDE}\n\x1b[1A{COL0}abcdef uv\n{SHOW}")]);
}

#[test]
fn a_wide_enough_terminal_changes_nothing() {
    let cols = vec![strings(&["~abc~", "de"]), strings(&["~xy~ z"])];
    // widest lines 3 and 4, one gap of 2: 9 columns are enough
    for width in [Some(9), Some(200)] {
        let mut r1 = SmallRng::seed_from_u64(21);
        let mut r2 = SmallRng::seed_from_u64(21);
        let a = column_frames(&cols, 2, '~', &config(RevealOrder::Random, 1, 3), width, &mut r1);
        let b = column_frames(&cols, 2, '~', &config(RevealOrder::Random, 1, 3), None, &mut r2);
        assert_eq!(a.frames, b.frames);
    }
}

#[test]
fn centered_columns_pad_the_shorter_above() {
    let cols = vec![strings(&["1", "2", "3"]), strings(&["x"])];
    let mut rng = SmallRng::seed_from_u64(2);
    let mut cfg = config(RevealOrder::Ordered, 1, 1);
    cfg.valign = VAlign::Center;
    let a = column_frames(&cols, 1, '~', &cfg, None, &mut rng);
    assert_eq!(
        a.frames,
        vec![format!("{HIDE}\n\n\n\x1b[3A{COL0}1 \n{COL0}2 x\n{COL0}3 \n{SHOW}")]
    );
}

#[test]
fn ordered_regions_lock_left_to_right() {
    let cols = vec![strings(&["~ghijklmnop~"]), strings(&[""])];
    let mut rng = SmallRng::seed_from_u64(8);
    let a = column_frames(&cols, 1, '~', &config(RevealOrder::Ordered, 1, 1), None, &mut rng);
    assert_eq!(a.total_frames, 10);
    for frame in &a.frames {
        let visible = strip_ansi(frame);
        let row = visible.trim_end_matches('\n').rsplit('\n').next().unwrap();
        let real: Vec<bool> = row.chars().map(|c| c.is_ascii_lowercase()).collect();
        let locked = real.iter().take_while(|r| **r).count();
        assert!(real[locked..].iter().all(|r| !*r), "frame {row:?} does not lock left to right");
    }
}

#[test]
fn marked_text_scrambles_only_its_regions() {
    let mut buf: Vec<u8> = Vec::new();
    animate_marked("OS: ~Ubuntu~", '~', &config(RevealOrder::Random, 1, 2), &mut buf);
    let out = String::from_utf8(buf).unwrap();
    assert!(out.starts_with(&format!("{HIDE}\n\x1b[1A{COL0}OS: ")));
    assert!(out.ends_with(&format!("\x1b[1A{COL0}OS: Ubuntu\n{SHOW}")));
}

// ── Side by side ─────────────────────────────────────────────────────────────

#[test]
fn side_by_side_ends_on_its_text() {
    let left = strings(&["\x1b[2K~ab~", "c", ""]);
    let right = strings(&["~\x1b[31mx~"]);
    let mut rng = SmallRng::seed_from_u64(4);
    let a = side_by_side_frames(&left, &right, 1, '~', &config(RevealOrder::Ordered, 1, 1), &mut rng);
    // every character of a region scrambles, escape codes included
    assert_eq!(a.total_frames, 6);
    assert_eq!(a.frames.len(), 7);
    assert_eq!(
        a.frames.last().unwrap(),
        &format!("\x1b[2A{COL0}ab \x1b[31mx\n{COL0}c  \n{SHOW}")
    );
}

#[test]
fn side_by_side_writes_its_frames() {
    let left = strings(&["logo"]);
    let right = strings(&["OS: ~Linux~"]);
    let mut buf: Vec<u8> = Vec::new();
    animate_side_by_side(&left, &right, 2, '~', &config(RevealOrder::Random, 1, 3), &mut buf);
    let out = String::from_utf8(buf).unwrap();
    assert!(out.starts_with(&format!("{HIDE}\n\x1b[1A{COL0}logo  OS: ")));
    assert!(out.ends_with(&format!("\x1b[1A{COL0}logo  OS: Linux\n{SHOW}")));
}

#[test]
fn side_by_side_of_nothing_writes_nothing() {
    let mut buf: Vec<u8> = Vec::new();
    animate_side_by_side(&strings(&["", "\x1b[0m"]), &[], 2, '~', &config(RevealOrder::Random, 1, 3), &mut buf);
    assert!(buf.is_empty());
}

// ── Noise ────────────────────────────────────────────────────────────────────

#[test]
fn noise_varies() {
    let mut rng = SmallRng::seed_from_u64(6);
    let mut seen: Vec<char> = Vec::new();
    for _ in 0..200 {
        let c = random_char(ResolvedCharSet::Alnum, &mut rng);
        if !seen.contains(&c) {
            seen.push(c);
        }
    }
    assert!(seen.len() > 10);
}

// ── Noise in the characters' own colours ─────────────────────────────────────

#[test]
fn matching_noise_sets_no_colour_of_its_own() {
    let mut cfg = config(RevealOrder::Ordered, 1, 1);
    cfg.color = AnsiColor::Match;
    let mut rng = SmallRng::seed_from_u64(3);
    let a = plan_animation("xyz", &cfg, &mut rng);
    assert_eq!(a.frames.len(), 5);
    assert_eq!(a.frames.last().unwrap(), &format!("{COL0}xyz{RESET}{SHOW}\n"));
    let row: Vec<char> = a.frames[1][COL0.len()..].chars().collect();
    assert_eq!(row.len(), 3);
    assert!(row.iter().all(|c| "0123456789ABCDEF@#$%^&*!?".contains(*c)));
}

#[test]
fn matching_noise_takes_each_character_colour() {
    let mut cfg = config(RevealOrder::Ordered, 1, 1);
    cfg.color = AnsiColor::Match;
    let cols = vec![strings(&["~\x1b[31mab~"]), strings(&["x"])];
    let mut rng = SmallRng::seed_from_u64(5);
    let a = column_frames(&cols, 1, '~', &cfg, None, &mut rng);
    assert_eq!(a.total_frames, 2);
    let first = &a.frames[0];
    let lead = format!("{HIDE}\n\x1b[1A{COL0}\x1b[31m");
    assert!(first.starts_with(&lead));
    assert!(first.ends_with(" x\n"));
    let noise: Vec<char> = first[lead.len()..first.len() - " x\n".len()].chars().collect();
    assert_eq!(noise.len(), 2);
    assert!(noise.iter().all(|c| "0123456789ABCDEF@#$%^&*!?".contains(*c)));
    assert!(!a.frames.iter().any(|f| f.contains("\x1b[38;5") || f.contains(RESET)));
    assert_eq!(a.frames.last().unwrap(), &format!("\x1b[1A{COL0}\x1b[31mab x\n{SHOW}"));
}
