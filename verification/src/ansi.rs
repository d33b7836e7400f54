//! The terminal control sequences the animations emit, as crossterm writes them.

use crossterm::cursor::{Hide, MoveToColumn, MoveUp, Show};
use crossterm::style::{Color, ResetColor, SetForegroundColor};
use crossterm::Command;
use vstd::prelude::*;
use crate::text::decimal;

verus! {

/// `ESC [` followed by `body`.
pub open spec fn csi(body: Seq<char>) -> Seq<char> {
    seq!['\x1b', '['] + body
}

/// Hides the cursor.
pub open spec fn hide_seq() -> Seq<char> {
    csi(seq!['?', '2', '5', 'l'])
}

/// Shows the cursor.
pub open spec fn show_seq() -> Seq<char> {
    csi(seq!['?', '2', '5', 'h'])
}

/// Resets every colour attribute.
pub open spec fn reset_seq() -> Seq<char> {
    csi(seq!['0', 'm'])
}

/// Moves the cursor to (zero-based) column `col`.
pub open spec fn column_seq(col: nat) -> Seq<char> {
    csi(decimal(col + 1) + seq!['G'])
}

/// Moves the cursor up `n` lines.
pub open spec fn up_seq(n: nat) -> Seq<char> {
    csi(decimal(n) + seq!['A'])
}

/// What `SetForegroundColor(Color::AnsiValue(value))` writes: the 256-colour foreground
/// code, or an empty SGR when colours are turned off by `NO_COLOR`.
pub open spec fn fg_code_ok(value: u8, code: Seq<char>) -> bool {
    ||| code == csi(seq!['3', '8', ';', '5', ';'] + decimal(value as nat) + seq!['m'])
    ||| code == csi(seq!['m'])
}

/// `crossterm::cursor::Hide`, whose ANSI form (crossterm's source: `csi!("?25l")`) is `ESC [?25l`.
#[verifier::external_body]
pub(crate) fn hide_cursor() -> (r: String)
    ensures
        r@ == hide_seq(),
{
    let mut s = String::new();
    let _ = Hide.write_ansi(&mut s);
    s
}

/// `crossterm::cursor::Show`, whose ANSI form (crossterm's source: `csi!("?25h")`) is `ESC [?25h`.
#[verifier::external_body]
pub(crate) fn show_cursor() -> (r: String)
    ensures
        r@ == show_seq(),
{
    let mut s = String::new();
    let _ = Show.write_ansi(&mut s);
    s
}

/// `crossterm::style::ResetColor`, whose ANSI form (crossterm's source: `csi!("0m")`) is `ESC [0m`.
#[verifier::external_body]
pub(crate) fn reset_color() -> (r: String)
    ensures
        r@ == reset_seq(),
{
    let mut s = String::new();
    let _ = ResetColor.write_ansi(&mut s);
    s
}

/// `crossterm::cursor::MoveToColumn(col)`, which crossterm writes as `ESC [` then `col + 1`
/// in decimal, then `G`. Crossterm adds 1 to the `u16` column, so `col` must be below `u16::MAX`.
#[verifier::external_body]
pub(crate) fn move_to_column(col: u16) -> (r: String)
    requires
        col < u16::MAX,
    ensures
        r@ == column_seq(col as nat),
{
    let mut s = String::new();
    let _ = MoveToColumn(col).write_ansi(&mut s);
    s
}

/// `crossterm::cursor::MoveUp(n)`, which crossterm writes as `ESC [` then `n` in decimal, then `A`.
#[verifier::external_body]
pub(crate) fn move_up(n: u16) -> (r: String)
    ensures
        r@ == up_seq(n as nat),
{
    let mut s = String::new();
    let _ = MoveUp(n).write_ansi(&mut s);
    s
}

/// `crossterm::style::SetForegroundColor(Color::AnsiValue(value))`. Crossterm writes
/// `ESC [38;5;` then `value` in decimal then `m`, or, when the `NO_COLOR` environment variable
/// is set and not empty, `ESC [m`; which of the two depends on the environment.
#[verifier::external_body]
pub(crate) fn set_foreground(value: u8) -> (r: String)
    ensures
        fg_code_ok(value, r@),
{
    let mut s = String::new();
    let _ = SetForegroundColor(Color::AnsiValue(value)).write_ansi(&mut s);
    s
}

/// `crossterm::terminal::size`, reduced to the terminal's width in columns; `None` when
/// crossterm cannot tell. What comes back depends on the terminal, so nothing is stated of it.
#[verifier::external_body]
pub(crate) fn terminal_width() -> Option<u16> {
    match crossterm::terminal::size() {
        Ok((w, _)) => Some(w),
        Err(_) => None,
    }
}

} // verus!
