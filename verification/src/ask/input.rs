//! `ui input`: one line, typed.
//!
//! Not the line editor: the editing keys stop at the ones people reach for without thinking,
//! the arrows, Home and End, backspace and forward delete, and Ctrl-U. What each key does to the
//! line is decided here; reading the keys and drawing the row are the caller's.

use vstd::prelude::*;
use super::Answer;
use crate::prompt::{printed_width, width_from};
use crate::term::Key;
use crate::text::{self, fits};

verus! {

/// How `input` is asked.
#[derive(Debug, Clone)]
pub struct Input {
    /// Shown before the cursor.
    pub prompt: String,
    /// Greyed text shown while the line is empty. Not a value: Enter on it answers the empty
    /// string, which is the difference between a placeholder and a default.
    pub placeholder: String,
    /// The line starts with this, and Enter on an untouched line answers it. Also the answer
    /// when there is no terminal.
    pub default: Option<String>,
    /// Draw `•` instead of the characters.
    pub password: bool,
    /// Refuse to answer with an empty line.
    pub required: bool,
}

impl Default for Input {
    fn default() -> (r: Input)
        ensures
            r.prompt@ == Seq::<char>::empty(),
            r.placeholder@ == Seq::<char>::empty(),
            r.default.is_none(),
            !r.password,
            !r.required,
    {
        Input {
            prompt: String::new(),
            placeholder: String::new(),
            default: None,
            password: false,
            required: false,
        }
    }
}

/// The line being typed, and the caret's place in it, in characters.
#[derive(Debug, Clone)]
pub struct Line {
    pub chars: Vec<char>,
    pub cursor: usize,
}

impl Line {
    /// The caret is never past the end of the line.
    pub open spec fn wf(&self) -> bool {
        self.cursor <= self.chars@.len()
    }
}

/// What a key left the question at.
#[derive(Debug, Clone, PartialEq, Eq)]
pub enum InputStep {
    /// Still typing; draw the line again.
    Editing,
    /// Enter on an empty line that must not be empty: say it is required and go on asking.
    Refused,
    /// The question is settled.
    Done(Answer<String>),
}

/// The text of an optional default, empty without one.
pub open spec fn default_text(d: Option<String>) -> Seq<char> {
    match d {
        Some(s) => s@,
        None => seq![],
    }
}

/// The line and caret after `key`, and what it settled, for a line `chars` with the caret at
/// `cursor`.
pub open spec fn spec_input_step(required: bool, chars: Seq<char>, cursor: nat, key: Key) -> (Seq<char>, nat, InputStep) {
    match key {
        Key::Cancel | Key::Abort => (chars, cursor, InputStep::Done(Answer::Cancelled)),
        Key::Accept => if required && chars.len() == 0 {
            (chars, cursor, InputStep::Refused)
        } else {
            (chars, cursor, InputStep::Editing)
        },
        Key::Char(c) => (chars.insert(cursor as int, c), cursor + 1, InputStep::Editing),
        Key::Backspace => if cursor > 0 {
            (chars.remove(cursor - 1), (cursor - 1) as nat, InputStep::Editing)
        } else {
            (chars, cursor, InputStep::Editing)
        },
        Key::Delete => if cursor < chars.len() {
            (chars.remove(cursor as int), cursor, InputStep::Editing)
        } else {
            (chars, cursor, InputStep::Editing)
        },
        Key::Left => (chars, if cursor > 0 { (cursor - 1) as nat } else { 0 }, InputStep::Editing),
        Key::Right => (chars, if cursor < chars.len() { cursor + 1 } else { chars.len() }, InputStep::Editing),
        Key::Home | Key::PageUp => (chars, 0, InputStep::Editing),
        Key::End | Key::PageDown => (chars, chars.len(), InputStep::Editing),
        Key::Clear => (seq![], 0, InputStep::Editing),
        _ => (chars, cursor, InputStep::Editing),
    }
}

/// Whether `step` answered with the line itself: Enter on a line that may be answered.
pub open spec fn answers_with_line(required: bool, chars: Seq<char>, key: Key) -> bool {
    key is Accept && !(required && chars.len() == 0)
}

impl Input {
    /// The answer when there is no terminal to ask on: the default when there is one, and
    /// otherwise the distinct no-terminal status.
    pub fn headless(&self) -> (r: Answer<String>)
        ensures
            r == match self.default {
                Some(v) => Answer::Given(v),
                None => Answer::NoTerminal,
            },
    {
        match &self.default {
            Some(value) => Answer::Given(value.clone()),
            None => Answer::NoTerminal,
        }
    }

    /// The line a question starts with: the default, with the caret after it.
    pub fn start(&self) -> (l: Line)
        ensures
            l.wf(),
            l.chars@ == default_text(self.default),
            l.cursor == l.chars@.len(),
    {
        let chars = match &self.default {
            Some(d) => text::chars_of(d.as_str()),
            None => Vec::new(),
        };
        let cursor = chars.len();
        Line { chars, cursor }
    }

    /// What pressing `key` does: Esc and Ctrl-C cancel; Enter answers the line, unless it is
    /// empty and an answer is required; the editing keys change the line and move the caret;
    /// anything else changes nothing.
    pub fn step(&self, line: &mut Line, key: Key) -> (r: InputStep)
        requires
            old(line).wf(),
        ensures
            final(line).wf(),
            final(line).chars@ == spec_input_step(self.required, old(line).chars@, old(line).cursor as nat, key).0,
            final(line).cursor == spec_input_step(self.required, old(line).chars@, old(line).cursor as nat, key).1,
            answers_with_line(self.required, old(line).chars@, key) ==> (r matches InputStep::Done(
                Answer::Given(s),
            ) && s@ == old(line).chars@),
            !answers_with_line(self.required, old(line).chars@, key) ==> r == spec_input_step(
                self.required,
                old(line).chars@,
                old(line).cursor as nat,
                key,
            ).2,
    {
        let n = line.chars.len();
        match key {
            Key::Cancel | Key::Abort => InputStep::Done(Answer::Cancelled),
            Key::Accept => {
                if self.required && n == 0 {
                    InputStep::Refused
                } else {
                    let answer = text::string_of(line.chars.as_slice());
                    InputStep::Done(Answer::Given(answer))
                }
            },
            Key::Char(c) => {
                line.chars.insert(line.cursor, c);
                let _grown = line.chars.len();
                line.cursor = line.cursor + 1;
                InputStep::Editing
            },
            Key::Backspace => {
                if line.cursor > 0 {
                    line.cursor = line.cursor - 1;
                    line.chars.remove(line.cursor);
                }
                InputStep::Editing
            },
            Key::Delete => {
                if line.cursor < n {
                    line.chars.remove(line.cursor);
                }
                InputStep::Editing
            },
            Key::Left => {
                if line.cursor > 0 {
                    line.cursor = line.cursor - 1;
                }
                InputStep::Editing
            },
            Key::Right => {
                if line.cursor < n {
                    line.cursor = line.cursor + 1;
                }
                InputStep::Editing
            },
            Key::Home | Key::PageUp => {
                line.cursor = 0;
                InputStep::Editing
            },
            Key::End | Key::PageDown => {
                line.cursor = n;
                InputStep::Editing
            },
            Key::Clear => {
                line.chars = Vec::new();
                line.cursor = 0;
                InputStep::Editing
            },
            _ => InputStep::Editing,
        }
    }

    /// What the row shows after the prompt: the placeholder while the line is empty, bullets in
    /// place of a password's characters, and otherwise the line itself.
    pub fn shown(&self, line: &Line) -> (r: String)
        ensures
            r@ == spec_shown(self.placeholder@, self.password, line.chars@),
    {
        if line.chars.len() == 0 && self.placeholder.unicode_len() > 0 {
            return self.placeholder.clone();
        }
        if self.password {
            bullets(line.chars.len())
        } else {
            text::string_of(line.chars.as_slice())
        }
    }

    /// The column the caret stands in: the cells of the prompt and of the line before it.
    pub fn caret_column(&self, line: &Line) -> (r: usize)
        requires
            line.wf(),
            fits(self.prompt@),
            fits(line.chars@),
        ensures
            r == width_from(self.prompt@, 0) + width_from(spec_before(self.password, line.chars@, line.cursor as nat), 0),
    {
        let before = if self.password {
            bullets(line.cursor)
        } else {
            let b = text::slice_vec(line.chars.as_slice(), 0, line.cursor);
            text::string_of(b.as_slice())
        };
        proof {
            crate::prompt::lemma_width_bound(self.prompt@, 0);
            crate::prompt::lemma_width_bound(before@, 0);
        }
        printed_width(self.prompt.as_str()) + printed_width(before.as_str())
    }
}

/// `n` bullets.
pub open spec fn spec_bullets(n: nat) -> Seq<char> {
    Seq::new(n, |_i: int| '\u{2022}')
}

fn bullets(n: usize) -> (r: String)
    ensures
        r@ == spec_bullets(n as nat),
{
    let mut out = String::new();
    let mut k: usize = 0;
    while k < n
        invariant
            k <= n,
            out@ == spec_bullets(k as nat),
        decreases n - k,
    {
        text::push_char(&mut out, '\u{2022}');
        k += 1;
        assert(out@ =~= spec_bullets(k as nat));
    }
    out
}

/// What the row shows after the prompt.
pub open spec fn spec_shown(placeholder: Seq<char>, password: bool, chars: Seq<char>) -> Seq<char> {
    if chars.len() == 0 && placeholder.len() > 0 {
        placeholder
    } else if password {
        spec_bullets(chars.len())
    } else {
        chars
    }
}

/// What stands before the caret, as drawn.
pub open spec fn spec_before(password: bool, chars: Seq<char>, cursor: nat) -> Seq<char> {
    if password {
        spec_bullets(cursor)
    } else {
        chars.subrange(0, cursor as int)
    }
}

/// Enter on the line a question starts with answers the default, or the empty line when there
/// is none, unless that is empty and an answer is required.
pub proof fn law_enter_on_an_untouched_line_answers_the_default(spec: Input)
    ensures
        answers_with_line(spec.required, default_text(spec.default), Key::Accept)
            <==> !(spec.required && default_text(spec.default).len() == 0),
{
}

/// Ctrl-U empties the line and Home then typing puts a character first: the caret and the line
/// always agree, whatever keys arrive.
pub proof fn law_the_caret_stays_on_the_line(required: bool, chars: Seq<char>, cursor: nat, key: Key)
    requires
        cursor <= chars.len(),
    ensures
        spec_input_step(required, chars, cursor, key).1 <= spec_input_step(required, chars, cursor, key).0.len(),
{
}

} // verus!
