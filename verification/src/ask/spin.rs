//! `ui spin`: run something slow and say so while it runs.
//!
//! The spinner goes to stderr and is erased when the command finishes, so `$(ui spin -- curl …)`
//! captures the command's stdout and nothing else, and the command's exit status is the widget's.
//! With no terminal the command still runs, only without the animation. What is decided here is
//! which frame is shown, the row that shows it, and what status the script sees.

use vstd::prelude::*;
use crate::text;

verus! {

/// How long each frame of the spinner stays up, in milliseconds.
pub const FRAME_MS: u64 = 80;

/// What to run, and what to say while it runs.
#[derive(Debug, Clone)]
pub struct Spin {
    pub title: String,
    /// The command and its arguments, run directly rather than through a shell, so a title
    /// holding a quote cannot become part of the command.
    pub command: Vec<String>,
    /// Keep the command's output off the caller's stdout.
    pub quiet: bool,
}

/// The frames: braille, one cell in every terminal that can draw it; `|/-\` for one that cannot.
pub open spec fn frames(plain: bool) -> Seq<char> {
    if plain {
        seq!['|', '/', '-', '\\']
    } else {
        seq!['⠋', '⠙', '⠹', '⠸', '⠼', '⠴', '⠦', '⠧', '⠇', '⠏']
    }
}

/// The frame shown `at` ticks in.
pub fn frame(at: usize, plain: bool) -> (c: char)
    ensures
        c == frames(plain)[(at as int) % (frames(plain).len() as int)],
{
    if plain {
        let k = at % 4;
        if k == 0 {
            '|'
        } else if k == 1 {
            '/'
        } else if k == 2 {
            '-'
        } else {
            '\\'
        }
    } else {
        let k = at % 10;
        if k == 0 {
            '⠋'
        } else if k == 1 {
            '⠙'
        } else if k == 2 {
            '⠹'
        } else if k == 3 {
            '⠸'
        } else if k == 4 {
            '⠼'
        } else if k == 5 {
            '⠴'
        } else if k == 6 {
            '⠦'
        } else if k == 7 {
            '⠧'
        } else if k == 8 {
            '⠇'
        } else {
            '⠏'
        }
    }
}

/// The spinner's row: back to the first column, erase it, the frame, then the title.
pub open spec fn spin_row_text(c: char, title: Seq<char>) -> Seq<char> {
    seq!['\r', '\x1b', '[', 'K', c, ' '] + title
}

/// The row drawn `at` ticks in.
pub fn spin_row(at: usize, plain: bool, title: &str) -> (r: String)
    ensures
        r@ == spin_row_text(frames(plain)[(at as int) % (frames(plain).len() as int)], title@),
{
    let c = frame(at, plain);
    let mut out = String::new();
    text::push_char(&mut out, '\r');
    text::push_char(&mut out, '\x1b');
    text::push_char(&mut out, '[');
    text::push_char(&mut out, 'K');
    text::push_char(&mut out, c);
    text::push_char(&mut out, ' ');
    text::push_str(&mut out, title);
    out
}

/// How a command's run ended.
#[derive(Debug, Clone, Copy, PartialEq, Eq, Structural)]
pub enum Ran {
    /// It ran and exited with this code, or was stopped by a signal and has none.
    Exited(Option<i32>),
    /// It could not be started: not found, or not executable.
    Unstartable,
}

/// The status a script sees: nothing to run is a usage error (2), a command that cannot be
/// started is 127 as a shell reports it, one stopped by a signal is 1, and otherwise the
/// command's own code.
pub fn spin_status(spec: &Spin, ran: Ran) -> (r: i32)
    ensures
        spec.command@.len() == 0 ==> r == 2,
        spec.command@.len() > 0 ==> r == match ran {
            Ran::Exited(Some(code)) => code,
            Ran::Exited(None) => 1,
            Ran::Unstartable => 127,
        },
{
    if spec.command.len() == 0 {
        return 2;
    }
    match ran {
        Ran::Exited(Some(code)) => code,
        Ran::Exited(None) => 1,
        Ran::Unstartable => 127,
    }
}

} // verus!
