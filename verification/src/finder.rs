//! The full-screen history finder's choices: which part of history it searches, and what it was
//! left with.

use vstd::prelude::*;

verus! {

/// Which part of history the finder is searching.
#[derive(Debug, Clone, Copy, PartialEq, Eq, Structural)]
pub enum Scope {
    /// Commands from every recorded directory.
    Global,
    /// Commands recorded in the shell's current directory only.
    Local,
}

impl Scope {
    /// The other scope: Tab switches between the two and back again.
    pub fn toggled(self) -> (r: Scope)
        ensures
            r == (match self {
                Scope::Global => Scope::Local,
                Scope::Local => Scope::Global,
            }),
    {
        match self {
            Scope::Global => Scope::Local,
            Scope::Local => Scope::Global,
        }
    }
}

/// What the finder was left with.
#[derive(Debug, Clone, PartialEq, Eq)]
pub enum Outcome {
    /// A line to put back on the prompt, and the language it was typed in.
    Chosen { line: String, mode: String },
    /// Esc, or Ctrl-C: the prompt comes back exactly as it was.
    Cancelled,
}

/// Rows of the finder's screen that the list does not get: a margin above the input surface, the
/// three rows of the surface, and a margin below it.
pub const CHROME_ROWS: usize = 5;

/// How many rows remain for results after the input and its margins; never fewer than one.
pub open spec fn spec_visible_rows(rows: int) -> int {
    if rows > CHROME_ROWS + 1 {
        rows - CHROME_ROWS
    } else {
        1
    }
}

/// How many rows remain for results on a screen `rows` tall.
pub fn visible_rows(rows: usize) -> (r: usize)
    ensures
        r == spec_visible_rows(rows as int),
{
    if rows > CHROME_ROWS + 1 {
        rows - CHROME_ROWS
    } else {
        1
    }
}

/// `t` held inside `0..=last`.
pub open spec fn clamped(t: int, last: int) -> int {
    if t < 0 {
        0
    } else if t > last {
        last
    } else {
        t
    }
}

/// The first visible row once the window has been moved as little as it can be to show
/// `selected`, and then pulled back so that it does not run past the end of a list `len` long.
pub open spec fn scrolled(selected: int, offset: int, window: int, len: int) -> int {
    let o = if selected < offset {
        selected
    } else if selected >= offset + window {
        selected + 1 - window
    } else {
        offset
    };
    let last_window = if len > window {
        len - window
    } else {
        0
    };
    if o < last_window {
        o
    } else {
        last_window
    }
}

/// Where the finder's selection is, and the window of rows that follows it.
///
/// Results are stored best-first and painted bottom-up, so index zero is the row nearest the
/// search bar. The window is re-measured from the terminal every frame, because the terminal can
/// be resized while the finder is open.
#[derive(Debug, Clone, Copy, PartialEq, Eq)]
pub struct Selection {
    /// How many results the list has.
    pub matches: usize,
    /// Index of the highlighted result.
    pub selected: usize,
    /// First visible row.
    pub offset: usize,
    /// How many rows the list currently has on screen.
    pub window: usize,
}

impl Selection {
    /// A selection that can be moved: inside the list (or at zero when it is empty), with a
    /// window of at least one row, and counts that the arithmetic on them can carry.
    pub open spec fn wf(&self) -> bool {
        &&& 1 <= self.window <= isize::MAX
        &&& self.matches <= isize::MAX
        &&& if self.matches == 0 {
            self.selected == 0
        } else {
            self.selected < self.matches
        }
    }

    /// The highlighted row is on screen, and the window does not run past the end of the list.
    pub open spec fn shows_selection(&self) -> bool {
        &&& self.offset <= self.selected < self.offset + self.window
        &&& self.offset + self.window <= if self.matches > self.window {
            self.matches as int
        } else {
            self.window as int
        }
    }

    /// A fresh list: the best match, nearest the bar, is selected, and the window is one row
    /// until the first frame measures the terminal.
    pub fn new(matches: usize) -> (s: Selection)
        requires
            matches <= isize::MAX,
        ensures
            s.wf(),
            s == (Selection { matches, selected: 0, offset: 0, window: 1 }),
    {
        Selection { matches, selected: 0, offset: 0, window: 1 }
    }

    /// Keep the selection visible in the current window.
    pub fn scroll_into_view(&mut self)
        requires
            old(self).wf(),
        ensures
            final(self).wf(),
            final(self).shows_selection(),
            *final(self) == (Selection {
                offset: scrolled(
                    old(self).selected as int,
                    old(self).offset as int,
                    old(self).window as int,
                    old(self).matches as int,
                ) as usize,
                ..*old(self)
            }),
    {
        if self.selected < self.offset {
            self.offset = self.selected;
        } else if self.selected - self.offset >= self.window {
            self.offset = self.selected + 1 - self.window;
        }
        let last_window = if self.matches > self.window {
            self.matches - self.window
        } else {
            0
        };
        if self.offset > last_window {
            self.offset = last_window;
        }
    }

    /// Move the selection by `delta` rows, clamped to the list, and bring it back into view.
    /// Nothing moves in an empty list.
    pub fn move_by(&mut self, delta: isize)
        requires
            old(self).wf(),
            isize::MIN <= old(self).selected + delta <= isize::MAX,
        ensures
            final(self).wf(),
            old(self).matches == 0 ==> *final(self) == *old(self),
            old(self).matches > 0 ==> final(self).shows_selection(),
            old(self).matches > 0 ==> *final(self) == (Selection {
                selected: clamped(old(self).selected + delta, old(self).matches - 1) as usize,
                offset: scrolled(
                    clamped(old(self).selected + delta, old(self).matches - 1),
                    old(self).offset as int,
                    old(self).window as int,
                    old(self).matches as int,
                ) as usize,
                ..*old(self)
            }),
    {
        if self.matches == 0 {
            return;
        }
        let last = self.matches - 1;
        let at = self.selected as isize;
        let t = at + delta;
        let next: usize = if t < 0 {
            0
        } else if t as usize > last {
            last
        } else {
            t as usize
        };
        self.selected = next;
        self.scroll_into_view();
    }

    /// Up on the screen is further down the list: towards worse matches.
    pub fn up(&mut self)
        requires
            old(self).wf(),
            old(self).selected + 1 <= isize::MAX,
        ensures
            final(self).wf(),
            old(self).matches == 0 ==> *final(self) == *old(self),
            old(self).matches > 0 ==> final(self).shows_selection(),
            old(self).matches > 0 ==> final(self).selected == clamped(
                old(self).selected + 1,
                old(self).matches - 1,
            ),
    {
        self.move_by(1);
    }

    /// Down on the screen is back towards the best match.
    pub fn down(&mut self)
        requires
            old(self).wf(),
        ensures
            final(self).wf(),
            old(self).matches == 0 ==> *final(self) == *old(self),
            old(self).matches > 0 ==> final(self).shows_selection(),
            old(self).matches > 0 ==> final(self).selected == clamped(
                old(self).selected - 1,
                old(self).matches - 1,
            ),
    {
        self.move_by(-1);
    }

    /// A whole window further from the bar.
    pub fn page_up(&mut self)
        requires
            old(self).wf(),
            old(self).selected + old(self).window <= isize::MAX,
        ensures
            final(self).wf(),
            old(self).matches == 0 ==> *final(self) == *old(self),
            old(self).matches > 0 ==> final(self).shows_selection(),
            old(self).matches > 0 ==> final(self).selected == clamped(
                old(self).selected + old(self).window,
                old(self).matches - 1,
            ),
    {
        let w = self.window as isize;
        self.move_by(w);
    }

    /// A whole window back towards the bar.
    pub fn page_down(&mut self)
        requires
            old(self).wf(),
        ensures
            final(self).wf(),
            old(self).matches == 0 ==> *final(self) == *old(self),
            old(self).matches > 0 ==> final(self).shows_selection(),
            old(self).matches > 0 ==> final(self).selected == clamped(
                old(self).selected - old(self).window,
                old(self).matches - 1,
            ),
    {
        let w = self.window as isize;
        self.move_by(-w);
    }

    /// Note this frame's screen height and keep the selection visible in the window it leaves.
    pub fn fit(&mut self, rows: usize)
        requires
            old(self).wf(),
            rows <= isize::MAX,
        ensures
            final(self).wf(),
            final(self).shows_selection(),
            *final(self) == (Selection {
                window: spec_visible_rows(rows as int) as usize,
                offset: scrolled(
                    old(self).selected as int,
                    old(self).offset as int,
                    spec_visible_rows(rows as int),
                    old(self).matches as int,
                ) as usize,
                ..*old(self)
            }),
    {
        self.window = visible_rows(rows);
        self.scroll_into_view();
    }

    /// The list was filtered again: back to the top, because the old index referred to a list
    /// that no longer exists.
    pub fn refiltered(&mut self, matches: usize)
        requires
            old(self).wf(),
            matches <= isize::MAX,
        ensures
            final(self).wf(),
            *final(self) == (Selection { matches, selected: 0, offset: 0, ..*old(self) }),
    {
        self.matches = matches;
        self.selected = 0;
        self.offset = 0;
    }

    /// The highlighted command was forgotten and the list filtered again without it: the
    /// selection goes back to where the eye was, or the new last row when that is gone.
    pub fn forgotten(&mut self, matches: usize)
        requires
            old(self).wf(),
            matches <= isize::MAX,
        ensures
            final(self).wf(),
            *final(self) == (Selection {
                matches,
                selected: if old(self).selected < matches {
                    old(self).selected
                } else if matches > 0 {
                    (matches - 1) as usize
                } else {
                    0
                },
                offset: 0,
                ..*old(self)
            }),
    {
        let was = self.selected;
        self.refiltered(matches);
        let last = if matches > 0 {
            matches - 1
        } else {
            0
        };
        self.selected = if was < last {
            was
        } else {
            last
        };
    }
}

/// Scrolling always lands on a window that shows the selection and does not run past the end of
/// the list, wherever the window was before and however large it is.
pub proof fn law_scrolling_brings_the_selection_into_view(
    selected: int,
    offset: int,
    window: int,
    len: int,
)
    requires
        0 <= offset,
        1 <= window,
        0 <= selected,
        selected < len || (len == 0 && selected == 0),
    ensures
        ({
            let o = scrolled(selected, offset, window, len);
            &&& 0 <= o <= selected < o + window
            &&& o + window <= if len > window { len } else { window }
        }),
{
}

/// A selection already on screen is left where it is: scrolling moves the window only when it
/// has to.
pub proof fn law_a_visible_selection_does_not_scroll(
    selected: int,
    offset: int,
    window: int,
    len: int,
)
    requires
        0 <= offset <= selected < offset + window,
        offset + window <= len,
    ensures
        scrolled(selected, offset, window, len) == offset,
{
}

/// Toggling twice is no toggle at all.
pub proof fn law_tab_twice_is_where_it_started(s: Scope)
    ensures
        (match (match s {
            Scope::Global => Scope::Local,
            Scope::Local => Scope::Global,
        }) {
            Scope::Global => Scope::Local,
            Scope::Local => Scope::Global,
        }) == s,
{
}

} // verus!
