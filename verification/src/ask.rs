//! Asking the person at the terminal something, from a script: the answers the widgets give and
//! the parsing their options need.
//!
//! A widget is a question, and the answer is the script's data. Cancelling is a status, not an
//! answer, so `x=$(ui input) || exit` means what it says; with no terminal to ask on, a widget
//! refuses rather than blocking on a pipe that will never deliver a keypress.

use vstd::prelude::*;
use crate::text;

pub mod choice;
pub mod chrome;
pub mod confirm;
pub mod file;
pub mod format;
pub mod input;
pub mod log;
pub mod narrow;
pub mod spin;
pub mod table;
pub mod write;

verus! {

/// What a widget answered.
#[derive(Debug, Clone, PartialEq, Eq)]
pub enum Answer<T> {
    /// The person answered.
    Given(T),
    /// Esc or Ctrl-C. Non-zero status, no output.
    Cancelled,
    /// There was no terminal to ask on, and no default was supplied.
    NoTerminal,
}

impl<T> Answer<T> {
    /// The exit status a script should see: 0 for an answer, 1 for a cancel, 2 for no terminal.
    pub fn status(&self) -> (r: i32)
        ensures
            r == match self {
                Answer::Given(_) => 0i32,
                Answer::Cancelled => 1i32,
                Answer::NoTerminal => 2i32,
            },
    {
        match self {
            Answer::Given(_) => 0,
            Answer::Cancelled => 1,
            Answer::NoTerminal => 2,
        }
    }

    /// The answer, when there was one.
    pub fn given(self) -> (r: Option<T>)
        ensures
            r == match self {
                Answer::Given(v) => Some(v),
                _ => None,
            },
    {
        match self {
            Answer::Given(value) => Some(value),
            _ => None,
        }
    }
}

/// `text` with a block cursor drawn on the character at `at` (past the end, on a space after
/// it): the character in reverse video, everything else as it was. Counted in characters, so a
/// multibyte character is one step.
pub open spec fn spec_with_caret(text: Seq<char>, at: nat) -> Seq<char> {
    let at = if at < text.len() { at } else { text.len() };
    let under = if at < text.len() { text[at as int] } else { ' ' };
    let after = if at < text.len() { text.subrange(at + 1 as int, text.len() as int) } else { seq![] };
    text.subrange(0, at as int) + "\x1b[7m"@ + seq![under] + "\x1b[0m"@ + after
}

/// `text` with a block cursor drawn on the character at `at`.
///
/// The caret is part of the frame, so it can never be a cell out of step with the text; at the
/// end of the text it sits on a space, which is how "typing at the end" looks different from "on
/// the last character".
pub fn with_caret(text: &str, at: usize) -> (r: String)
    ensures
        r@ == spec_with_caret(text@, at as nat),
{
    let ghost at0 = at;
    let chars = text::chars_of(text);
    let n = chars.len();
    let at = if at < n {
        at
    } else {
        n
    };
    let before = text::slice_vec(chars.as_slice(), 0, at);
    let under = if at < n {
        chars[at]
    } else {
        ' '
    };
    let after = if at < n {
        text::slice_vec(chars.as_slice(), at + 1, n)
    } else {
        Vec::new()
    };
    let mut out = text::string_of(before.as_slice());
    text::push_str(&mut out, "\x1b[7m");
    text::push_char(&mut out, under);
    text::push_str(&mut out, "\x1b[0m");
    let tail = text::string_of(after.as_slice());
    text::push_str(&mut out, tail.as_str());
    assert(out@ =~= spec_with_caret(text@, at0 as nat));
    out
}

} // verus!
