//! `ui confirm` — yes or no, as an exit status.
//!
//! Two buttons rather than a `[y/N]` prompt, because a button you can see is selected tells you
//! what Enter will do. `y` and `n` still work, since that is what fingers already know. Drawing
//! the buttons and reading the keys is the caller's; which button is chosen after a key, and when
//! the question is answered, is decided here.

use vstd::prelude::*;
use crate::ask::Answer;
use crate::term::Key;

verus! {

/// How `confirm` is asked.
#[derive(Debug, Clone)]
pub struct Confirm {
    pub question: String,
    pub yes: String,
    pub no: String,
    /// Which button starts selected, and the answer when there is no terminal. Defaults to no: a
    /// confirm is asked before something you cannot undo, and a reflexive Enter must not be the
    /// destructive answer.
    pub default: bool,
}

impl Default for Confirm {
    fn default() -> (c: Confirm)
        ensures
            c.question@ == "Are you sure?"@,
            c.yes@ == "Yes"@,
            c.no@ == "No"@,
            !c.default,
    {
        let mut question = String::new();
        crate::text::push_str(&mut question, "Are you sure?");
        let mut yes = String::new();
        crate::text::push_str(&mut yes, "Yes");
        let mut no = String::new();
        crate::text::push_str(&mut no, "No");
        Confirm { question, yes, no, default: false }
    }
}

impl Confirm {
    /// The answer when there is no terminal to ask on: the default, so a script that confirms
    /// still runs headless.
    pub fn headless(&self) -> (r: Answer<bool>)
        ensures
            r == Answer::Given(self.default),
    {
        Answer::Given(self.default)
    }
}

/// Where a confirm stands after a key.
#[derive(Debug, Clone, PartialEq, Eq)]
pub enum ConfirmStep {
    /// Still asking, with `yes` the selected button when true.
    Choosing(bool),
    /// The question is settled.
    Done(Answer<bool>),
}

/// What pressing `key` does when `yes` says which button is selected: Esc cancels, Enter answers
/// with the selected button, `y` and `n` select, and the arrows and Tab swap. Anything else
/// changes nothing.
pub fn confirm_step(yes: bool, key: Key) -> (r: ConfirmStep)
    ensures
        r == match key {
            Key::Cancel => ConfirmStep::Done(Answer::Cancelled),
            Key::Accept => ConfirmStep::Done(Answer::Given(yes)),
            Key::Char(c) => if c == 'y' || c == 'Y' {
                ConfirmStep::Choosing(true)
            } else if c == 'n' || c == 'N' {
                ConfirmStep::Choosing(false)
            } else {
                ConfirmStep::Choosing(yes)
            },
            Key::Left | Key::Right | Key::ToggleScope | Key::BackTab => ConfirmStep::Choosing(!yes),
            _ => ConfirmStep::Choosing(yes),
        },
{
    match key {
        Key::Cancel => ConfirmStep::Done(Answer::Cancelled),
        Key::Accept => ConfirmStep::Done(Answer::Given(yes)),
        Key::Char(c) => if c == 'y' || c == 'Y' {
            ConfirmStep::Choosing(true)
        } else if c == 'n' || c == 'N' {
            ConfirmStep::Choosing(false)
        } else {
            ConfirmStep::Choosing(yes)
        },
        Key::Left | Key::Right | Key::ToggleScope | Key::BackTab => ConfirmStep::Choosing(!yes),
        _ => ConfirmStep::Choosing(yes),
    }
}

} // verus!
