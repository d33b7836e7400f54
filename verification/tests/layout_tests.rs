use deob::layout::{
    chars_with_ansi_context, collect_sgr_codes, compose_layout, parse_markers, parse_sgr_line,
    propagate_sgr_across_lines, strip_ansi, strip_cursor_codes, trim_trailing_empty, truncate_to_visual_width,
    visual_width, Fg, GraphicsState, Segment,
};
use deob::charset::{resolve_with_alphanumeric, ResolvedCharSet};
use deob::cli::CharSet;
use deob::text::{is_blank, parse_usize};

fn strings(v: &[&str]) -> Vec<String> {
    v.iter().map(|s| s.to_string()).collect()
}

fn segment_text(segs: &[Segment]) -> String {
    segs.iter()
        .map(|g| match g {
            Segment::Static(t) => t.clone(),
            Segment::Scrambled(t) => t.clone(),
        })
        .collect()
}

// ── Marker regions ───────────────────────────────────────────────────────────

#[test]
fn segments_put_together_give_the_line_without_markers() {
    let line = "OS ~Ubu~ntu~ x~y";
    let segs = parse_markers(line, '~');
    assert_eq!(
        segs,
        vec![
            Segment::Static("OS ".into()),
            Segment::Scrambled("Ubu".into()),
            Segment::Static("ntu".into()),
            Segment::Scrambled(" x".into()),
            Segment::Static("y".into()),
        ]
    );
    assert_eq!(segment_text(&segs), line.replace('~', ""));
    for g in &segs {
        let t = match g {
            Segment::Static(t) | Segment::Scrambled(t) => t,
        };
        assert!(!t.is_empty());
        assert!(!t.contains('~'));
    }
}

#[test]
fn unterminated_region_scrambles_to_the_end() {
    assert_eq!(
        parse_markers("a~bc", '~'),
        vec![Segment::Static("a".into()), Segment::Scrambled("bc".into())]
    );
}

#[test]
fn markers_alone_give_no_segment() {
    assert_eq!(parse_markers("~~~~", '~'), vec![]);
}

// ── Control sequences ────────────────────────────────────────────────────────

#[test]
fn strip_ansi_drops_every_control_sequence() {
    assert_eq!(strip_ansi("\x1b[1;31mred\x1b[0m \x1b[2Kok"), "red ok");
    // an escape not followed by `[` is kept; an unterminated sequence runs to the end
    assert_eq!(strip_ansi("a\x1bb"), "a\x1bb");
    assert_eq!(strip_ansi("ab\x1b[12"), "ab");
}

#[test]
fn visual_width_counts_neither_codes_nor_markers() {
    assert_eq!(visual_width("\x1b[1m~ab~ c\x1b[0m", '~'), 4);
    assert_eq!(visual_width("", '~'), 0);
    assert_eq!(visual_width("日本", '~'), 2);
}

#[test]
fn cursor_codes_go_colours_and_text_stay() {
    let s = "\x1b[2K\x1b[31mred\x1b[10Gx\x1b[0m";
    let kept = strip_cursor_codes(s);
    assert_eq!(kept, "\x1b[31mredx\x1b[0m");
    assert_eq!(strip_ansi(&kept), strip_ansi(s));
    assert_eq!(collect_sgr_codes(&kept), collect_sgr_codes(s));
    assert_eq!(collect_sgr_codes(s), "\x1b[31m\x1b[0m");
}

#[test]
fn stray_escape_can_run_into_a_kept_bracket() {
    // The lone escape at the start is visible text; once the cursor code after it is
    // dropped, it runs into `[1m` and the result opens with a colour code instead.
    let s = "\x1b\x1b[A[1m";
    assert_eq!(strip_cursor_codes(s), "\x1b[1m");
    assert_eq!(strip_ansi(s), "\x1b[1m");
    assert_eq!(strip_ansi(&strip_cursor_codes(s)), "");
}

#[test]
fn context_chars_are_the_visible_text() {
    let s = "\x1b[1mA\x1b[31m\x1b[2JBC\x1b[0m";
    let ctx = chars_with_ansi_context(s);
    assert_eq!(
        ctx,
        vec![
            ('A', "\x1b[1m".to_string()),
            ('B', "\x1b[31m\x1b[2J".to_string()),
            ('C', String::new()),
        ]
    );
    let chars: String = ctx.iter().map(|(c, _)| *c).collect();
    assert_eq!(chars, strip_ansi(s));
}

#[test]
fn truncation_keeps_leading_visible_chars_and_their_codes() {
    let s = "\x1b[31mabcdef\x1b[0m";
    assert_eq!(truncate_to_visual_width(s, 3), "\x1b[31mabc");
    assert_eq!(strip_ansi(&truncate_to_visual_width(s, 3)), "abc");
    assert_eq!(truncate_to_visual_width(s, 10), s);
    assert_eq!(truncate_to_visual_width(s, 0), "\x1b[31m");
}

// ── Lines and columns ────────────────────────────────────────────────────────

#[test]
fn trim_drops_only_the_invisible_tail() {
    let lines = strings(&["a", "", "\x1b[0m", "~~", ""]);
    assert_eq!(trim_trailing_empty(&lines, '~'), &lines[..1]);
    let lines = strings(&["", "b", ""]);
    assert_eq!(trim_trailing_empty(&lines, '~'), &lines[..2]);
    let lines = strings(&["", "\x1b[1m"]);
    assert!(trim_trailing_empty(&lines, '~').is_empty());
}

#[test]
fn columns_line_up_whatever_the_row() {
    let cols = vec![
        strings(&["a", "abcd"]),
        strings(&["\x1b[31mxy\x1b[0m"]),
        strings(&["z"]),
    ];
    let layout = compose_layout(&cols, 2, '~');
    assert_eq!(layout.len(), 2);
    assert_eq!(layout[0][0], ("a".to_string(), 5));
    assert_eq!(layout[0][1], ("\x1b[31mxy\x1b[0m".to_string(), 2));
    assert_eq!(layout[0][2], ("z".to_string(), 0));
    assert_eq!(layout[1][0], ("abcd".to_string(), 2));
    assert_eq!(layout[1][1], (String::new(), 4));
    assert_eq!(layout[1][2], (String::new(), 0));
    let max_widths = [4, 2];
    for row in &layout {
        for ci in 0..2 {
            assert_eq!(visual_width(&row[ci].0, '~') + row[ci].1, max_widths[ci] + 2);
        }
    }
}

#[test]
fn no_columns_no_rows() {
    assert!(compose_layout(&[], 1, '~').is_empty());
}

// ── Carried colours ──────────────────────────────────────────────────────────

#[test]
fn state_prefixes_are_exact() {
    let st = GraphicsState { bold: true, fg: Fg::Rgb(1, 2, 3) };
    assert_eq!(st.to_prefix(), "\x1b[1m\x1b[38;2;1;2;3m");
    let st = GraphicsState { bold: false, fg: Fg::Color256(200) };
    assert_eq!(st.to_prefix(), "\x1b[38;5;200m");
    let st = GraphicsState { bold: false, fg: Fg::Ansi(36) };
    assert_eq!(st.to_prefix(), "\x1b[36m");
    assert_eq!(GraphicsState::default().to_prefix(), "");
    assert!(GraphicsState::default().is_default());
    assert!(!GraphicsState { bold: true, fg: Fg::Default }.is_default());
}

#[test]
fn sgr_line_states() {
    assert_eq!(
        parse_sgr_line("\x1b[1;38;5;200mX"),
        GraphicsState { bold: true, fg: Fg::Color256(200) }
    );
    assert_eq!(
        parse_sgr_line("\x1b[38;2;300;2;3mX\x1b[22m"),
        GraphicsState { bold: false, fg: Fg::Rgb(44, 2, 3) }
    );
    assert_eq!(parse_sgr_line("\x1b[1;91mX\x1b[0m"), GraphicsState::default());
    assert_eq!(parse_sgr_line("\x1b[91mX\x1b[39m"), GraphicsState::default());
    // an empty parameter list resets, as code 0 does; a cursor code changes nothing
    assert_eq!(parse_sgr_line("\x1b[1m\x1b[m"), GraphicsState::default());
    assert_eq!(parse_sgr_line("\x1b[35m\x1b[3A"), GraphicsState { bold: false, fg: Fg::Ansi(35) });
}

#[test]
fn carried_colours_keep_every_line_visible_text() {
    let lines = strings(&["\x1b[1m\x1b[36m ab", "  cd", "", "\x1b[0mef", "gh"]);
    let out = propagate_sgr_across_lines(lines.clone(), '~');
    assert_eq!(out.len(), lines.len());
    assert_eq!(out[1], "\x1b[1m\x1b[36m  cd");
    assert_eq!(out[2], "");
    assert_eq!(out[3], "\x1b[0mef");
    assert_eq!(out[4], "gh");
    for (o, l) in out.iter().zip(lines.iter()) {
        assert_eq!(strip_ansi(o), strip_ansi(l));
        assert!(o.ends_with(l.as_str()));
    }
}

// ── Text helpers ─────────────────────────────────────────────────────────────

#[test]
fn usize_fields_parse_as_from_str_does() {
    let p = |s: &str| parse_usize(&s.chars().collect());
    assert_eq!(p("42"), Some(42));
    assert_eq!(p("+7"), Some(7));
    assert_eq!(p(""), None);
    assert_eq!(p("+"), None);
    assert_eq!(p("12a"), None);
    assert_eq!(p("-1"), None);
    assert_eq!(p("99999999999999999999999"), None);
    assert_eq!(p(&usize::MAX.to_string()), Some(usize::MAX));
}

#[test]
fn blank_text_is_white_space_only() {
    assert!(is_blank(""));
    assert!(is_blank(" \t\n\u{3000}"));
    assert!(!is_blank(" x "));
}

#[test]
fn prefixes_read_back_as_their_state() {
    let states = [
        GraphicsState::default(),
        GraphicsState { bold: true, fg: Fg::Default },
        GraphicsState { bold: false, fg: Fg::Ansi(31) },
        GraphicsState { bold: true, fg: Fg::Ansi(97) },
        GraphicsState { bold: false, fg: Fg::Color256(0) },
        GraphicsState { bold: true, fg: Fg::Color256(255) },
        GraphicsState { bold: false, fg: Fg::Rgb(0, 128, 255) },
    ];
    for st in states {
        assert_eq!(parse_sgr_line(&st.to_prefix()), st);
    }
}

#[test]
fn dropping_cursor_codes_twice_is_dropping_them_once() {
    for s in ["\x1b[2K\x1b[31mred\x1b[10Gx\x1b[0m", "plain", "\x1b[1;32mok\x1b[3A", "\x1b[12"] {
        let once = strip_cursor_codes(s);
        assert_eq!(strip_cursor_codes(&once), once);
    }
}

// ── Noise sets ───────────────────────────────────────────────────────────────

#[test]
fn noise_set_from_given_alphanumeric_flags() {
    let flags = |v: &[bool]| v.to_vec();
    assert_eq!(resolve_with_alphanumeric(CharSet::Auto, "a!b", &flags(&[true, false, true])), ResolvedCharSet::Ascii);
    assert_eq!(resolve_with_alphanumeric(CharSet::Auto, "a!b", &flags(&[true, true, true])), ResolvedCharSet::Alnum);
    assert_eq!(resolve_with_alphanumeric(CharSet::Auto, "a b", &flags(&[true, false, true])), ResolvedCharSet::Alnum);
    assert_eq!(resolve_with_alphanumeric(CharSet::Auto, "", &flags(&[])), ResolvedCharSet::Hacker);
    assert_eq!(resolve_with_alphanumeric(CharSet::Hacker, "x", &flags(&[false])), ResolvedCharSet::Hacker);
    assert_eq!(resolve_with_alphanumeric(CharSet::Ascii, "x", &flags(&[true])), ResolvedCharSet::Ascii);
    assert_eq!(resolve_with_alphanumeric(CharSet::Alnum, "!", &flags(&[false])), ResolvedCharSet::Alnum);
}
