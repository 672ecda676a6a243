//! Where every cell of the edited row goes: given a prompt, the text, where the cursor is in it,
//! a ghost hint and the terminal width, how many rows the block occupies and which row and column
//! the cursor sits in. Widths are cells, not characters, and a row filled exactly to the last
//! column leaves its wrap pending.

use vstd::prelude::*;
use crate::dropdown::width::{
    display_width, physical_rows, spec_display_width, spec_physical_rows, width_of,
};
use crate::text::{self, fits};

verus! {

/// Everything the row is drawn from.
pub struct Row<'a> {
    /// The prompt, escapes and all. Measured by what it prints.
    pub prompt: &'a str,
    /// The line as it should appear, already highlighted if it is going to be.
    pub text: &'a str,
    /// The same line without colour, for measuring and for slicing at the cursor.
    pub plain: &'a str,
    /// Cursor position as a character index into `plain`.
    pub cursor: usize,
    /// Ghost text shown after the line, already styled.
    pub hint: &'a str,
    /// Drawn hard against the right edge of the first row, when it fits.
    pub right: &'a str,
    pub cols: usize,
}

/// Where the row's cells landed.
#[derive(Debug, Clone, PartialEq, Eq)]
pub struct Placed {
    /// What to write, starting from column 0 of the prompt's row.
    pub text: String,
    /// Screen rows the whole block occupies, at least 1.
    pub rows: usize,
    /// Which of those rows the cursor is on, counting from the first.
    pub cursor_row: usize,
    /// Which column, counting from 0.
    pub cursor_col: usize,
}

/// A row whose texts are of a length a machine can hold.
pub open spec fn row_fits(row: Row) -> bool {
    fits(row.prompt@) && fits(row.text@) && fits(row.plain@) && fits(row.hint@) && fits(row.right@)
}

/// `n` spaces.
pub open spec fn spaces(n: nat) -> Seq<char> {
    Seq::new(n, |_i: int| ' ')
}

/// The cells before the cursor, prompt included.
pub open spec fn cursor_cells(row: Row) -> nat {
    let take = if row.cursor <= row.plain@.len() { row.cursor as int } else { row.plain@.len() as int };
    spec_display_width(row.prompt@) + spec_display_width(row.plain@.subrange(0, take))
}

/// The cells the drawn content takes: prompt, line and hint.
pub open spec fn used_cells(row: Row) -> nat {
    spec_display_width(row.prompt@) + spec_display_width(row.plain@) + spec_display_width(row.hint@)
}

/// The right prompt, padded out to the edge, when it fits with a blank column to spare.
pub open spec fn right_part(row: Row, cols: nat) -> Seq<char> {
    let used = used_cells(row);
    let right_cells = spec_display_width(row.right@);
    if row.right@.len() > 0 && used < cols && right_cells < cols - used {
        spaces((cols - used - right_cells) as nat) + row.right@
    } else {
        seq![]
    }
}

/// How wide the prompt prints.
pub fn prompt_width(prompt: &str) -> (w: usize)
    requires
        fits(prompt@),
    ensures
        w == spec_display_width(prompt@),
{
    display_width(prompt)
}

/// Lay the row out.
pub fn place(row: &Row) -> (p: Placed)
    requires
        row_fits(*row),
    ensures
        ({
            let cols: nat = if row.cols >= 1 { row.cols as nat } else { 1 };
            &&& p.text@ == row.prompt@ + row.text@ + row.hint@ + right_part(*row, cols)
            &&& p.rows == spec_physical_rows(used_cells(*row), cols)
            &&& p.cursor_row == cursor_cells(*row) / cols
            &&& p.cursor_col == cursor_cells(*row) % cols
        }),
{
    let cols = if row.cols >= 1 {
        row.cols
    } else {
        1
    };
    proof {
        crate::dropdown::width::lemma_width_bound(row.prompt@);
        crate::dropdown::width::lemma_width_bound(row.plain@);
        crate::dropdown::width::lemma_width_bound(row.hint@);
        crate::dropdown::width::lemma_width_bound(row.right@);
    }
    let prompt_cells = display_width(row.prompt);
    let plain = text::chars_of(row.plain);
    let take = if row.cursor <= plain.len() {
        row.cursor
    } else {
        plain.len()
    };
    let before = text::slice_vec(plain.as_slice(), 0, take);
    proof {
        crate::dropdown::width::lemma_width_bound(before@);
    }
    let cursor_cells = prompt_cells + width_of(before.as_slice());
    let line_cells = prompt_cells + width_of(plain.as_slice());
    let hint_cells = display_width(row.hint);

    let mut out = String::new();
    text::push_str(&mut out, row.prompt);
    text::push_str(&mut out, row.text);
    text::push_str(&mut out, row.hint);

    let used = line_cells + hint_cells;
    let ghost before_right = out@;
    if row.right.unicode_len() > 0 && used < cols {
        let right_cells = display_width(row.right);
        if right_cells < cols - used {
            let gap = cols - used - right_cells;
            let mut k: usize = 0;
            while k < gap
                invariant
                    k <= gap,
                    out@ == before_right + spaces(k as nat),
                decreases gap - k,
            {
                text::push_char(&mut out, ' ');
                k += 1;
                assert(out@ =~= before_right + spaces(k as nat));
            }
            text::push_str(&mut out, row.right);
        }
    }
    proof {
        assert(out@ =~= row.prompt@ + row.text@ + row.hint@ + right_part(*row, cols as nat));
    }
    let rows = physical_rows(used, cols);
    Placed { text: out, rows, cursor_row: cursor_cells / cols, cursor_col: cursor_cells % cols }
}

} // verus!
