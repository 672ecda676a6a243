//! The completion dropdown's arithmetic: widths in terminal cells, wrap counts, and the column
//! layout that keeps every row inside the terminal.

pub mod layout;
pub mod render;
pub mod width;

use vstd::prelude::*;
use crate::text;

verus! {

pub use self::layout::{DropdownLayout, compute_layout};
pub use self::render::{matching_prefix, render_vertical_dropdown_at_width, render_vertical_dropdown_with};
pub use self::width::{
    FALLBACK_COLS, display_width, pad_to_width, physical_rows, truncate_to_width, visible_len,
};

/// The most candidates shown at once; beyond this the list pages.
pub const MAX_ROWS: usize = 8;

/// One completion the dropdown can offer.
#[derive(Debug, Clone)]
pub struct CompletionCandidate {
    pub display: String,
    pub replacement: String,
    pub description: Option<String>,
    pub kind: Option<String>,
}

impl CompletionCandidate {
    pub fn new(display: String, replacement: String, description: Option<String>) -> (c: Self)
        ensures
            c.display@ == display@,
            c.replacement@ == replacement@,
            c.description == description,
            c.kind.is_none(),
    {
        CompletionCandidate { display, replacement, description, kind: None }
    }

    /// The icon drawn before the label: by kind when there is one, and otherwise guessed from
    /// the label's shape.
    pub fn icon(&self) -> (r: &'static str)
        ensures
            r@ == spec_icon(kind_view(self.kind), self.display@),
    {
        match &self.kind {
            Some(k) => {
                let k = text::chars_of(k.as_str());
                if text::eq_str(k.as_slice(), "subcommand") {
                    "🏷️ "
                } else if text::eq_str(k.as_slice(), "flag") {
                    "🚩 "
                } else if text::eq_str(k.as_slice(), "dir") {
                    "📁 "
                } else if text::eq_str(k.as_slice(), "file") {
                    "📄 "
                } else if text::eq_str(k.as_slice(), "builtin") {
                    "⚡ "
                } else if text::eq_str(k.as_slice(), "variable") {
                    "💲 "
                } else {
                    "⚙️ "
                }
            },
            None => {
                let d = text::chars_of(self.display.as_str());
                if d.len() > 0 && d[0] == '-' {
                    "🚩 "
                } else if d.len() > 0 && d[d.len() - 1] == '/' {
                    "📁 "
                } else if d.len() > 0 && d[0] == '$' {
                    "💲 "
                } else {
                    "⚙️ "
                }
            },
        }
    }

    /// The word the kind badge spells, or `None` for a candidate with no kind.
    pub fn badge(&self) -> (r: Option<String>)
        ensures
            kind_view(r) == spec_badge(kind_view(self.kind)),
    {
        match &self.kind {
            None => None,
            Some(k) => {
                let v = text::chars_of(k.as_str());
                let word: &str = if text::eq_str(v.as_slice(), "dir") || text::eq_str(v.as_slice(), "directory") {
                    "dir"
                } else if text::eq_str(v.as_slice(), "file") {
                    "file"
                } else if text::eq_str(v.as_slice(), "builtin") {
                    "builtin"
                } else if text::eq_str(v.as_slice(), "command") {
                    "command"
                } else if text::eq_str(v.as_slice(), "variable") {
                    "variable"
                } else if text::eq_str(v.as_slice(), "history") {
                    "history"
                } else if text::eq_str(v.as_slice(), "alias") {
                    "alias"
                } else if text::eq_str(v.as_slice(), "flag") || text::eq_str(v.as_slice(), "option") {
                    "option"
                } else if text::eq_str(v.as_slice(), "subcommand") {
                    "subcmd"
                } else if v.len() > 0 {
                    return Some(text::string_of(v.as_slice()));
                } else {
                    return None;
                };
                Some(text::string_of(text::chars_of(word).as_slice()))
            },
        }
    }
}

/// An optional string, seen as its characters.
pub open spec fn kind_view(o: Option<String>) -> Option<Seq<char>> {
    match o {
        Some(k) => Some(k@),
        None => None,
    }
}

/// The icon for a kind, or for a label when there is no kind.
pub open spec fn spec_icon(kind: Option<Seq<char>>, display: Seq<char>) -> Seq<char> {
    match kind {
        Some(k) => if k == "subcommand"@ {
            "🏷️ "@
        } else if k == "flag"@ {
            "🚩 "@
        } else if k == "dir"@ {
            "📁 "@
        } else if k == "file"@ {
            "📄 "@
        } else if k == "builtin"@ {
            "⚡ "@
        } else if k == "variable"@ {
            "💲 "@
        } else {
            "⚙️ "@
        },
        None => if display.len() > 0 && display[0] == '-' {
            "🚩 "@
        } else if display.len() > 0 && display.last() == '/' {
            "📁 "@
        } else if display.len() > 0 && display[0] == '$' {
            "💲 "@
        } else {
            "⚙️ "@
        },
    }
}

pub proof fn lemma_icon_len(kind: Option<Seq<char>>, display: Seq<char>)
    ensures
        spec_icon(kind, display).len() <= 3,
{
    reveal_strlit("🏷️ ");
    reveal_strlit("🚩 ");
    reveal_strlit("📁 ");
    reveal_strlit("📄 ");
    reveal_strlit("⚡ ");
    reveal_strlit("💲 ");
    reveal_strlit("⚙️ ");
}

/// The badge word for a kind.
pub open spec fn spec_badge(kind: Option<Seq<char>>) -> Option<Seq<char>> {
    match kind {
        None => None,
        Some(k) => if k == "dir"@ || k == "directory"@ {
            Some("dir"@)
        } else if k == "file"@ {
            Some("file"@)
        } else if k == "builtin"@ {
            Some("builtin"@)
        } else if k == "command"@ {
            Some("command"@)
        } else if k == "variable"@ {
            Some("variable"@)
        } else if k == "history"@ {
            Some("history"@)
        } else if k == "alias"@ {
            Some("alias"@)
        } else if k == "flag"@ || k == "option"@ {
            Some("option"@)
        } else if k == "subcommand"@ {
            Some("subcmd"@)
        } else if k.len() > 0 {
            Some(k)
        } else {
            None
        },
    }
}

/// The menu's state: its candidates, which one is selected, and how it is placed.
pub struct DropdownMenu {
    pub candidates: Vec<CompletionCandidate>,
    pub selected_index: usize,
    pub max_visible: usize,
    pub indent_cols: usize,
}

impl DropdownMenu {
    pub fn new(candidates: Vec<CompletionCandidate>, indent_cols: usize) -> (m: Self)
        ensures
            m.candidates@ == candidates@,
            m.selected_index == 0,
            m.max_visible == MAX_ROWS,
            m.indent_cols == indent_cols,
    {
        DropdownMenu { candidates, selected_index: 0, max_visible: MAX_ROWS, indent_cols }
    }
}

/// What one read from the keyboard does to an open menu.
#[derive(Debug, Clone, Copy, PartialEq, Eq, Structural)]
pub enum MenuStep {
    /// Enter or space: the candidate at this index is chosen.
    Pick(usize),
    /// Tab or an arrow moved the selection; draw the menu again.
    Moved,
    /// Escape, end of input, or anything else: the menu closes with nothing chosen.
    Close,
}

/// The selection after moving one step down, wrapping past the last candidate.
pub open spec fn next_index(sel: nat, len: nat) -> nat {
    if sel + 1 >= len { 0 } else { sel + 1 }
}

/// The selection after moving one step up, wrapping past the first candidate.
pub open spec fn prev_index(sel: nat, len: nat) -> nat {
    if sel > 0 { (sel - 1) as nat } else { (len - 1) as nat }
}

/// What the bytes of one read mean to the menu, with `sel` selected among `len` candidates:
/// the step, and the selection afterwards.
pub open spec fn spec_menu_step(input: Seq<u8>, sel: nat, len: nat) -> (MenuStep, nat) {
    if input.len() == 1 {
        let b = input[0];
        if b == 13 || b == 10 || b == 32 {
            (MenuStep::Pick(sel as usize), sel)
        } else if b == 9 {
            (MenuStep::Moved, next_index(sel, len))
        } else {
            (MenuStep::Close, sel)
        }
    } else if input.len() == 3 && input[0] == 27 && input[1] == 91 && (input[2] == 65 || input[2] == 66) {
        if input[2] == 65 {
            (MenuStep::Moved, prev_index(sel, len))
        } else {
            (MenuStep::Moved, next_index(sel, len))
        }
    } else {
        (MenuStep::Close, sel)
    }
}

impl DropdownMenu {
    /// Take one read from the keyboard (the bytes it returned, none at end of input): Tab and
    /// Down move the selection on and Up moves it back, both wrapping round; Enter or space
    /// picks the selection; anything else closes the menu.
    pub fn step(&mut self, input: &[u8]) -> (r: MenuStep)
        requires
            old(self).selected_index < old(self).candidates@.len(),
        ensures
            r == spec_menu_step(input@, old(self).selected_index as nat, old(self).candidates@.len()).0,
            final(self).selected_index == spec_menu_step(
                input@,
                old(self).selected_index as nat,
                old(self).candidates@.len(),
            ).1,
            final(self).selected_index < final(self).candidates@.len(),
            final(self).candidates@ == old(self).candidates@,
            final(self).max_visible == old(self).max_visible,
            final(self).indent_cols == old(self).indent_cols,
    {
        let len = self.candidates.len();
        let sel = self.selected_index;
        let next = if sel + 1 >= len {
            0
        } else {
            sel + 1
        };
        if input.len() == 1 {
            let b = input[0];
            if b == 13 || b == 10 || b == 32 {
                MenuStep::Pick(sel)
            } else if b == 9 {
                self.selected_index = next;
                MenuStep::Moved
            } else {
                MenuStep::Close
            }
        } else if input.len() == 3 && input[0] == 27 && input[1] == 91 && (input[2] == 65 || input[2] == 66) {
            if input[2] == 65 {
                self.selected_index = if sel > 0 {
                    sel - 1
                } else {
                    len - 1
                };
            } else {
                self.selected_index = next;
            }
            MenuStep::Moved
        } else {
            MenuStep::Close
        }
    }
}

/// Moving down and then up, or up and then down, puts the selection back where it was: the
/// wrap at either end is undone by the wrap at the other.
pub proof fn law_down_then_up_is_a_round_trip(sel: nat, len: nat)
    requires
        sel < len,
    ensures
        prev_index(next_index(sel, len), len) == sel,
        next_index(prev_index(sel, len), len) == sel,
        next_index(sel, len) < len,
        prev_index(sel, len) < len,
{
}

} // verus!
