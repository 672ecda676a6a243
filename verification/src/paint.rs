//! Drawing a block of rows under the cursor and taking it away again.
//!
//! Printing rows and then moving up works everywhere except the bottom of the screen: there the
//! newlines scroll, the cursor ends up fewer rows down than were printed, and the walk back up
//! lands above where it started. So the rows are reserved first — the newlines are printed while
//! the cursor is still accounted for, and it comes back up — and every later frame is a redraw in
//! place. Every move is relative; the shared cursor-save slot is never used.

use vstd::prelude::*;
use crate::text::{self, decimal};

verus! {

/// Begin an atomic update (DEC mode 2026), so the terminal cannot show a half-drawn frame.
pub const SYNC_BEGIN: &'static str = "\x1b[?2026h";
/// End the atomic update.
pub const SYNC_END: &'static str = "\x1b[?2026l";

/// A block of rows owned by one widget, and the column it draws from.
#[derive(Debug)]
pub struct Panel {
    /// How many rows have been reserved. Grows, never shrinks, until the panel is closed.
    reserved: usize,
    /// The column the cursor sat in when the panel opened.
    column: usize,
}

/// A panel as the rows it owns and the column it returns to.
pub struct PanelView {
    pub reserved: nat,
    pub column: nat,
}

impl View for Panel {
    type V = PanelView;

    closed spec fn view(&self) -> PanelView {
        PanelView { reserved: self.reserved as nat, column: self.column as nat }
    }
}

impl Default for Panel {
    fn default() -> (p: Panel)
        ensures
            p@.reserved == 0 && p@.column == 0,
    {
        Panel { reserved: 0, column: 0 }
    }
}

/// `n` newlines.
pub open spec fn newlines(n: nat) -> Seq<char> {
    Seq::new(n, |i: int| '\n')
}

/// `ESC [ n <letter>`: a relative cursor move.
pub open spec fn cursor_move(n: nat, letter: char) -> Seq<char> {
    "\x1b["@ + decimal(n) + seq![letter]
}

/// What reserving `wanted` rows prints when `reserved` are already owned: the extra newlines and
/// the walk back up over them, or nothing.
pub open spec fn reserve_text(reserved: nat, wanted: nat) -> Seq<char> {
    if wanted <= reserved {
        seq![]
    } else {
        newlines((wanted - reserved) as nat) + cursor_move((wanted - reserved) as nat, 'A')
    }
}

/// Back to the panel's column: a carriage return, then a move right unless the column is 0.
pub open spec fn back_to(column: nat) -> Seq<char> {
    seq!['\r'] + if column > 0 {
        cursor_move(column, 'C')
    } else {
        seq![]
    }
}

/// What drawing `frame`, `rows` rows tall, prints.
pub open spec fn draw_text(p: PanelView, frame: Seq<char>, rows: nat) -> Seq<char> {
    reserve_text(p.reserved, rows) + frame + "\x1b[J"@ + (if rows > 0 {
        cursor_move(rows, 'A')
    } else {
        seq![]
    }) + back_to(p.column)
}

/// What closing prints: nothing for a panel that owns no rows.
pub open spec fn close_text(p: PanelView) -> Seq<char> {
    if p.reserved == 0 {
        seq![]
    } else {
        "\x1b[B\r\x1b[J\x1b[A"@ + back_to(p.column)
    }
}

fn push_move(out: &mut String, n: usize, letter: char)
    ensures
        final(out)@ == old(out)@ + cursor_move(n as nat, letter),
{
    text::push_str(out, "\x1b[");
    text::push_decimal(out, n);
    text::push_char(out, letter);
    proof {
        assert(final(out)@ =~= old(out)@ + cursor_move(n as nat, letter));
    }
}

fn push_back_to(out: &mut String, column: usize)
    ensures
        final(out)@ == old(out)@ + back_to(column as nat),
{
    text::push_char(out, '\r');
    if column > 0 {
        push_move(out, column, 'C');
    }
    proof {
        assert(final(out)@ =~= old(out)@ + back_to(column as nat));
    }
}

impl Panel {
    /// A panel drawn from `column`, owning no rows yet.
    pub fn at(column: usize) -> (p: Panel)
        ensures
            p@.reserved == 0,
            p@.column == column,
    {
        Panel { reserved: 0, column }
    }

    /// How many rows this panel currently owns.
    pub fn reserved(&self) -> (r: usize)
        ensures
            r == self@.reserved,
    {
        self.reserved
    }

    /// The escapes that draw `rows` rows of `frame` and leave the cursor where it started.
    ///
    /// `frame` begins each row with `\r\n`, so after drawing the cursor is `rows` below the start;
    /// the rows are reserved before anything is drawn, and never given back by a shorter frame.
    pub fn draw(&mut self, frame: &str, rows: usize) -> (out: String)
        ensures
            out@ == draw_text(old(self)@, frame@, rows as nat),
            final(self)@.reserved == if rows > old(self)@.reserved { rows as nat } else { old(self)@.reserved },
            final(self)@.column == old(self)@.column,
    {
        let mut out = self.reserve(rows);
        text::push_str(&mut out, frame);
        text::push_str(&mut out, "\x1b[J");
        if rows > 0 {
            push_move(&mut out, rows, 'A');
        }
        push_back_to(&mut out, self.column);
        proof {
            assert(out@ =~= draw_text(old(self)@, frame@, rows as nat));
        }
        out
    }

    /// Make room for `wanted` rows below the cursor, scrolling now rather than mid-draw.
    fn reserve(&mut self, wanted: usize) -> (out: String)
        ensures
            out@ == reserve_text(old(self)@.reserved, wanted as nat),
            final(self)@.reserved == if wanted > old(self)@.reserved { wanted as nat } else { old(self)@.reserved },
            final(self)@.column == old(self)@.column,
    {
        if wanted <= self.reserved {
            return String::new();
        }
        let extra = wanted - self.reserved;
        self.reserved = wanted;
        let mut out = String::new();
        let mut i: usize = 0;
        while i < extra
            invariant
                i <= extra,
                out@ == newlines(i as nat),
            decreases extra - i,
        {
            text::push_char(&mut out, '\n');
            i += 1;
            proof {
                assert(out@ =~= newlines(i as nat));
            }
        }
        push_move(&mut out, extra, 'A');
        out
    }

    /// Erase everything this panel drew, leaving the cursor where it started, and own no rows.
    pub fn close(&mut self) -> (out: String)
        ensures
            out@ == close_text(old(self)@),
            final(self)@.reserved == 0,
            final(self)@.column == old(self)@.column,
    {
        if self.reserved == 0 {
            return String::new();
        }
        self.reserved = 0;
        let mut out = String::new();
        text::push_str(&mut out, "\x1b[B\r\x1b[J\x1b[A");
        push_back_to(&mut out, self.column);
        proof {
            assert(out@ =~= close_text(old(self)@));
        }
        out
    }
}

/// A frame no taller than what is already reserved reserves nothing: it starts with the frame
/// itself, and the panel still owns every row it had.
pub proof fn law_rows_are_reserved_once(p: PanelView, frame: Seq<char>, rows: nat)
    requires
        rows <= p.reserved,
    ensures
        draw_text(p, frame, rows).subrange(0, frame.len() as int) == frame,
{
    let t = draw_text(p, frame, rows);
    assert(reserve_text(p.reserved, rows) =~= seq![]);
    assert(t.subrange(0, frame.len() as int) =~= frame);
}

/// A taller frame reserves exactly the extra rows, before any of the frame is written.
pub proof fn law_growing_reserves_the_difference(p: PanelView, frame: Seq<char>, rows: nat)
    requires
        rows > p.reserved,
    ensures
        draw_text(p, frame, rows).subrange(0, (rows - p.reserved) as int) == newlines((rows - p.reserved) as nat),
{
    let extra = (rows - p.reserved) as nat;
    let t = draw_text(p, frame, rows);
    assert(t.subrange(0, extra as int) =~= newlines(extra));
}

/// Closing forgets the rows, so closing a second time prints nothing.
pub proof fn law_closing_twice_is_nothing(p: PanelView)
    ensures
        close_text(PanelView { reserved: 0, column: p.column }) == Seq::<char>::empty(),
{
}

} // verus!
