//! Turning the names a config writes into bindings the line editor understands.
//!
//! Keys are named — `ctrl-r`, `shift-tab`, `f2` — rather than written as escape sequences,
//! because the sequence a key produces depends on the terminal. An unrecognised key or action is
//! reported, never ignored: a binding that silently does nothing is the failure that costs the
//! most time to diagnose.

use vstd::prelude::*;
use crate::query::parse_u8;
use crate::text::{self, spec_ascii_lower_all, spec_trim};

verus! {

/// What a bound key does. A fixed list: an action nothing answers to is a typo.
#[derive(Debug, Clone, Copy, PartialEq, Eq, Structural)]
pub enum Action {
    /// Switch the prompt between shell and Lua.
    ToggleLanguage,
    ClearScreen,
    HistorySearchBackward,
    /// Take the whole ghost suggestion.
    AcceptSuggestion,
    /// Take one word of it.
    AcceptSuggestionWord,
    Interrupt,
    Complete,
    /// A function the config supplied.
    LuaHandler,
}

/// The action a name stands for.
pub open spec fn spec_action(n: Seq<char>) -> Option<Action> {
    if n == "toggle-language"@ || n == "toggle-mode"@ {
        Some(Action::ToggleLanguage)
    } else if n == "clear-screen"@ {
        Some(Action::ClearScreen)
    } else if n == crate::editor::ACTION@ {
        Some(Action::LuaHandler)
    } else if n == "history-search"@ || n == "history-search-backward"@ {
        Some(Action::HistorySearchBackward)
    } else if n == "accept-suggestion"@ {
        Some(Action::AcceptSuggestion)
    } else if n == "accept-suggestion-word"@ || n == "accept-word"@ {
        Some(Action::AcceptSuggestionWord)
    } else if n == "interrupt"@ {
        Some(Action::Interrupt)
    } else if n == "complete"@ {
        Some(Action::Complete)
    } else {
        None
    }
}

impl Action {
    fn parse(name: &str) -> (r: Option<Action>)
        ensures
            r == spec_action(name@),
    {
        let n = text::chars_of(name);
        let n = n.as_slice();
        if text::eq_str(n, "toggle-language") || text::eq_str(n, "toggle-mode") {
            Some(Action::ToggleLanguage)
        } else if text::eq_str(n, "clear-screen") {
            Some(Action::ClearScreen)
        } else if text::eq_str(n, crate::editor::ACTION) {
            Some(Action::LuaHandler)
        } else if text::eq_str(n, "history-search") || text::eq_str(n, "history-search-backward") {
            Some(Action::HistorySearchBackward)
        } else if text::eq_str(n, "accept-suggestion") {
            Some(Action::AcceptSuggestion)
        } else if text::eq_str(n, "accept-suggestion-word") || text::eq_str(n, "accept-word") {
            Some(Action::AcceptSuggestionWord)
        } else if text::eq_str(n, "interrupt") {
            Some(Action::Interrupt)
        } else if text::eq_str(n, "complete") {
            Some(Action::Complete)
        } else {
            None
        }
    }
}

/// The action a name stands for, for callers that bind by name.
pub fn action(name: &str) -> (r: Option<Action>)
    ensures
        r == spec_action(name@),
{
    Action::parse(name)
}

/// The keys that are named by a word.
pub open spec fn named_key(n: Seq<char>) -> bool {
    n == "tab"@ || n == "shift-tab"@ || n == "backtab"@ || n == "s-tab"@ || n == "enter"@ || n
        == "return"@ || n == "esc"@ || n == "escape"@ || n == "up"@ || n == "down"@ || n
        == "left"@ || n == "right"@ || n == "home"@ || n == "end"@ || n == "pageup"@ || n
        == "pagedown"@ || n == "backspace"@ || n == "delete"@ || n == "space"@
}

/// `f1` to `f12`, the number read as `str::parse::<u8>` reads it.
pub open spec fn function_key(n: Seq<char>) -> bool {
    n.len() > 0 && n[0] == 'f' && match parse_u8(n.drop_first()) {
        Some(k) => 1 <= k <= 12,
        None => false,
    }
}

/// A modifier, a dash, and exactly one character.
pub open spec fn chord_with(n: Seq<char>, prefix: Seq<char>) -> bool {
    n.len() == prefix.len() + 1 && n.subrange(0, prefix.len() as int) == prefix
}

pub open spec fn chord(n: Seq<char>) -> bool {
    chord_with(n, "ctrl-"@) || chord_with(n, "alt-"@) || chord_with(n, "meta-"@) || chord_with(n, "shift-"@)
}

/// Whether `name`, trimmed and with ASCII case folded, is a key a config may bind.
pub open spec fn spec_is_key_name(name: Seq<char>) -> bool {
    let n = spec_ascii_lower_all(spec_trim(name));
    named_key(n) || function_key(n) || chord(n)
}

fn chord_with_x(n: &[char], prefix: &str) -> (r: bool)
    ensures
        r == chord_with(n@, prefix@),
{
    let p = text::chars_of(prefix);
    n.len() > p.len() && n.len() - p.len() == 1 && text::starts_with(n, p.as_slice())
}

/// Whether `name` is a key oslo can recognise, in the spelling a config writes: a named key,
/// `f1`..`f12`, or `ctrl-`, `alt-`, `meta-` or `shift-` with one character. Case and surrounding
/// space do not matter.
pub fn is_key_name(name: &str) -> (r: bool)
    ensures
        r == spec_is_key_name(name@),
{
    let all = text::chars_of(name);
    let t = text::trim(all.as_slice());
    let n = text::ascii_lower_all(t.as_slice());
    let n = n.as_slice();
    let named = text::eq_str(n, "tab") || text::eq_str(n, "shift-tab") || text::eq_str(n, "backtab")
        || text::eq_str(n, "s-tab") || text::eq_str(n, "enter") || text::eq_str(n, "return")
        || text::eq_str(n, "esc") || text::eq_str(n, "escape") || text::eq_str(n, "up")
        || text::eq_str(n, "down") || text::eq_str(n, "left") || text::eq_str(n, "right")
        || text::eq_str(n, "home") || text::eq_str(n, "end") || text::eq_str(n, "pageup")
        || text::eq_str(n, "pagedown") || text::eq_str(n, "backspace") || text::eq_str(n, "delete")
        || text::eq_str(n, "space");
    if named {
        return true;
    }
    if n.len() > 0 && n[0] == 'f' {
        let rest = text::slice_vec(n, 1, n.len());
        proof {
            assert(rest@ =~= n@.drop_first());
        }
        match crate::query::parse_u8_x(rest.as_slice()) {
            Some(k) => {
                if 1 <= k && k <= 12 {
                    return true;
                }
            },
            None => {},
        }
    }
    chord_with_x(n, "ctrl-") || chord_with_x(n, "alt-") || chord_with_x(n, "meta-") || chord_with_x(n, "shift-")
}

} // verus!
