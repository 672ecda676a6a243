//! The emacs keymap: what each key means to the line editor.
//!
//! The chords are readline's. Ctrl-A, Ctrl-E, Ctrl-B, Ctrl-F, Ctrl-P, Ctrl-N, Ctrl-U and Ctrl-D
//! arrive already named as Home, End, the arrows, Clear and forward delete, so only the chords
//! with no shared meaning are looked up by their letter here.

use vstd::prelude::*;
use crate::term::Key;

verus! {

/// What a key asks of the line editor.
#[derive(Debug, Clone, Copy, PartialEq, Eq, Structural)]
pub enum Action {
    Insert(char),
    Left,
    Right,
    /// `M-b`.
    WordLeft,
    /// `M-f`.
    WordRight,
    Home,
    End,
    Backspace,
    /// Forward delete, or end of input on an empty line.
    Delete,
    /// `C-k`.
    KillToEnd,
    /// `C-u`.
    KillToStart,
    /// `M-DEL`.
    KillWordLeft,
    /// `M-d`.
    KillWordRight,
    /// `C-w`.
    KillSpaceWordLeft,
    /// `C-y`.
    Yank,
    /// `C-t`.
    Transpose,
    /// `M-u`.
    Upper,
    /// `M-l`.
    Lower,
    /// `M-c`.
    Capitalise,
    /// Tab.
    Complete,
    /// Shift-Tab.
    CompleteBack,
    HistoryPrev,
    HistoryNext,
    /// `C-r`.
    SearchHistory,
    Accept,
    /// Ctrl-C.
    Abort,
    /// `C-l`: clear the screen and draw the line again.
    Redraw,
    /// Esc on its own.
    Escape,
    /// A key with no meaning here.
    Nothing,
}

/// A control chord by its letter.
pub open spec fn ctrl_action(c: char) -> Action {
    if c == 'k' {
        Action::KillToEnd
    } else if c == 'w' {
        Action::KillSpaceWordLeft
    } else if c == 'y' {
        Action::Yank
    } else if c == 't' {
        Action::Transpose
    } else if c == 'l' {
        Action::Redraw
    } else if c == 'r' {
        Action::SearchHistory
    } else {
        Action::Nothing
    }
}

/// An Alt chord by its character.
pub open spec fn alt_action(c: char) -> Action {
    if c == 'b' {
        Action::WordLeft
    } else if c == 'f' {
        Action::WordRight
    } else if c == 'd' {
        Action::KillWordRight
    } else if c == '\x7f' {
        Action::KillWordLeft
    } else if c == 'u' {
        Action::Upper
    } else if c == 'l' {
        Action::Lower
    } else if c == 'c' {
        Action::Capitalise
    } else {
        Action::Nothing
    }
}

/// What a key means.
pub open spec fn spec_action(key: Key) -> Action {
    match key {
        Key::Char(c) => Action::Insert(c),
        Key::Alt(c) => alt_action(c),
        Key::Ctrl(c) => ctrl_action(c),
        Key::Backspace => Action::Backspace,
        Key::Delete => Action::Delete,
        Key::Up => Action::HistoryPrev,
        Key::Down => Action::HistoryNext,
        Key::Left => Action::Left,
        Key::Right => Action::Right,
        Key::Home => Action::Home,
        Key::End => Action::End,
        Key::Accept => Action::Accept,
        Key::Cancel => Action::Escape,
        Key::Abort => Action::Abort,
        Key::Clear => Action::KillToStart,
        Key::ToggleScope => Action::Complete,
        Key::BackTab => Action::CompleteBack,
        Key::PageUp | Key::PageDown | Key::Ignored => Action::Nothing,
    }
}

/// What `key` means to the line editor.
pub fn action(key: Key) -> (a: Action)
    ensures
        a == spec_action(key),
{
    match key {
        Key::Char(c) => Action::Insert(c),
        Key::Alt(c) => if c == 'b' {
            Action::WordLeft
        } else if c == 'f' {
            Action::WordRight
        } else if c == 'd' {
            Action::KillWordRight
        } else if c == '\x7f' {
            Action::KillWordLeft
        } else if c == 'u' {
            Action::Upper
        } else if c == 'l' {
            Action::Lower
        } else if c == 'c' {
            Action::Capitalise
        } else {
            Action::Nothing
        },
        Key::Ctrl(c) => if c == 'k' {
            Action::KillToEnd
        } else if c == 'w' {
            Action::KillSpaceWordLeft
        } else if c == 'y' {
            Action::Yank
        } else if c == 't' {
            Action::Transpose
        } else if c == 'l' {
            Action::Redraw
        } else if c == 'r' {
            Action::SearchHistory
        } else {
            Action::Nothing
        },
        Key::Backspace => Action::Backspace,
        Key::Delete => Action::Delete,
        Key::Up => Action::HistoryPrev,
        Key::Down => Action::HistoryNext,
        Key::Left => Action::Left,
        Key::Right => Action::Right,
        Key::Home => Action::Home,
        Key::End => Action::End,
        Key::Accept => Action::Accept,
        Key::Cancel => Action::Escape,
        Key::Abort => Action::Abort,
        Key::Clear => Action::KillToStart,
        Key::ToggleScope => Action::Complete,
        Key::BackTab => Action::CompleteBack,
        Key::PageUp | Key::PageDown | Key::Ignored => Action::Nothing,
    }
}

} // verus!
