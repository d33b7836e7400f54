//! Command-line options, as plain values.

use vstd::prelude::*;
use std::path::PathBuf;

verus! {

#[verifier::external_type_specification]
#[verifier::external_body]
pub struct ExPathBuf(PathBuf);

/// ANSI foreground colour for noise characters.
#[derive(Clone, Copy, Debug, PartialEq, Eq, Structural)]
pub enum AnsiColor {
    Black,
    Red,
    Green,
    Yellow,
    Blue,
    Magenta,
    Cyan,
    White,
    /// No colour of its own: noise shows in the colour of the character it stands for.
    Match,
}

/// Noise character set.
#[derive(Clone, Copy, Debug, PartialEq, Eq, Structural)]
pub enum CharSet {
    /// All printable ASCII (! through ~)
    Ascii,
    /// Alphanumeric only (A-Z, a-z, 0-9)
    Alnum,
    /// Hex digits + @#$%^&*!?
    Hacker,
    /// Auto-detect from input content
    Auto,
}

/// Character reveal order.
#[derive(Clone, Copy, Debug, PartialEq, Eq, Structural)]
pub enum RevealOrder {
    /// Lock characters left-to-right
    Ordered,
    /// Lock characters in a random sequence
    Random,
}

/// Vertical alignment of shorter columns relative to the tallest.
#[derive(Clone, Copy, Debug, PartialEq, Eq, Structural)]
pub enum VAlign {
    /// Align all columns to the top (default)
    Top,
    /// Center shorter columns vertically against the tallest
    Center,
}

/// The options of one run.
pub struct Args {
    /// Text to animate (reads from stdin if omitted)
    pub text: Option<String>,
    /// Delay between frames in milliseconds
    pub speed: u64,
    /// ANSI foreground color for noise characters
    pub color: AnsiColor,
    /// Noise character set
    pub charset: CharSet,
    /// Character reveal order
    pub order: RevealOrder,
    /// Minimum scramble frames per character before it locks
    pub scrambles_min: u32,
    /// Maximum scramble frames per character before it locks
    pub scrambles_max: u32,
    /// Column files for side-by-side mode (repeat for each column, minimum 2)
    pub cols: Vec<PathBuf>,
    /// Extra spaces between columns
    pub gap: usize,
    /// Character delimiting scramble regions
    pub marker: char,
    /// Vertical alignment of shorter columns relative to the tallest
    pub valign: VAlign,
    /// Scramble only the regions of the text delimited by the marker
    pub markers: bool,
}

} // verus!
