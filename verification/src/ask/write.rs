//! `ui write`: several lines, typed.
//!
//! `input` with a second dimension, and the difference is entirely in what ends it: Enter makes a
//! new line, and Ctrl-D is done, the rule every multi-line prompt in Unix has used since
//! `mail(1)`. What each key does to the text is decided here; reading the keys and drawing the
//! rows are the caller's.

use vstd::prelude::*;
use super::Answer;
use crate::term::Key;
use crate::text::{self, join_with, split_on};

verus! {

/// How `write` is asked.
#[derive(Debug, Clone)]
pub struct Write {
    pub header: String,
    pub placeholder: String,
    /// The text starts as this, and it is the answer when there is no terminal.
    pub default: Option<String>,
}

impl Default for Write {
    fn default() -> (r: Write)
        ensures
            r.header@ == Seq::<char>::empty(),
            r.placeholder@ == Seq::<char>::empty(),
            r.default.is_none(),
    {
        Write { header: String::new(), placeholder: String::new(), default: None }
    }
}

/// The text being written, a line at a time, and the caret: which line, and where in it, in
/// characters.
#[derive(Debug, Clone)]
pub struct Draft {
    pub lines: Vec<Vec<char>>,
    pub row: usize,
    pub col: usize,
}

/// What a key left the text at.
#[derive(Debug, Clone, PartialEq, Eq)]
pub enum WriteStep {
    /// Still writing; draw the text again.
    Editing,
    /// The question is settled.
    Done(Answer<String>),
}

impl Draft {
    /// The lines, as text.
    pub open spec fn doc(&self) -> Seq<Seq<char>> {
        Seq::new(self.lines@.len(), |i: int| self.lines@[i]@)
    }

    /// There is always a line, and the caret is on one, never past its end.
    pub open spec fn wf(&self) -> bool {
        &&& self.lines@.len() >= 1
        &&& self.row < self.lines@.len()
        &&& self.col <= self.lines@[self.row as int]@.len()
    }
}

/// The text a draft answers with: its lines joined by newlines.
pub open spec fn draft_text(doc: Seq<Seq<char>>) -> Seq<char> {
    join_with(doc, '\n')
}

/// The lines and the caret after `key`, for the lines `doc` with the caret on line `row` at
/// column `col`.
pub open spec fn spec_write_step(doc: Seq<Seq<char>>, row: nat, col: nat, key: Key) -> (Seq<Seq<char>>, nat, nat) {
    let line = doc[row as int];
    match key {
        Key::Accept => (
            doc.update(row as int, line.subrange(0, col as int)).insert(
                row + 1 as int,
                line.subrange(col as int, line.len() as int),
            ),
            row + 1,
            0,
        ),
        Key::Char(c) => (doc.update(row as int, line.insert(col as int, c)), row, col + 1),
        Key::Backspace => if col > 0 {
            (doc.update(row as int, line.remove(col - 1)), row, (col - 1) as nat)
        } else if row > 0 {
            let above = doc[row - 1];
            (doc.remove(row as int).update(row - 1 as int, above + line), (row - 1) as nat, above.len())
        } else {
            (doc, row, col)
        },
        Key::Left => if col > 0 {
            (doc, row, (col - 1) as nat)
        } else if row > 0 {
            (doc, (row - 1) as nat, doc[row - 1].len())
        } else {
            (doc, row, col)
        },
        Key::Right => if col < line.len() {
            (doc, row, col + 1)
        } else if row + 1 < doc.len() {
            (doc, row + 1, 0)
        } else {
            (doc, row, col)
        },
        Key::Up => {
            let r: nat = if row > 0 { (row - 1) as nat } else { 0 };
            (doc, r, if col < doc[r as int].len() { col } else { doc[r as int].len() })
        },
        Key::Down => {
            let r: nat = if row + 1 < doc.len() { row + 1 } else { row };
            (doc, r, if col < doc[r as int].len() { col } else { doc[r as int].len() })
        },
        Key::Home => (doc, row, 0),
        Key::End => (doc, row, line.len()),
        Key::Clear => (doc.update(row as int, seq![]), row, 0),
        _ => (doc, row, col),
    }
}

/// What `key` settles: Esc or Ctrl-C cancels; Ctrl-D (which arrives as forward delete) answers the text,
/// or cancels when there is none, as the same key does at a shell prompt.
pub open spec fn spec_write_outcome(doc: Seq<Seq<char>>, key: Key) -> WriteStep {
    match key {
        Key::Cancel | Key::Abort => WriteStep::Done(Answer::Cancelled),
        Key::Delete => if draft_text(doc).len() == 0 {
            WriteStep::Done(Answer::Cancelled)
        } else {
            WriteStep::Editing
        },
        _ => WriteStep::Editing,
    }
}

/// The lines of `t`, split at each newline.
pub open spec fn lines_of(t: Seq<char>) -> Seq<Seq<char>> {
    split_on(t, '\n')
}

impl Write {
    /// The answer when there is no terminal to ask on: the default when there is one, and
    /// otherwise the distinct no-terminal status.
    pub fn headless(&self) -> (r: Answer<String>)
        ensures
            r == match self.default {
                Some(v) => Answer::Given(v),
                None => Answer::NoTerminal,
            },
    {
        match &self.default {
            Some(value) => Answer::Given(value.clone()),
            None => Answer::NoTerminal,
        }
    }

    /// The draft a question starts with: the default's lines, with the caret at the end of the
    /// last.
    pub fn start(&self) -> (d: Draft)
        ensures
            d.wf(),
            d.doc() == lines_of(super::input::default_text(self.default)),
            d.row == d.doc().len() - 1,
            d.col == d.doc()[d.row as int].len(),
    {
        let chars = match &self.default {
            Some(t) => text::chars_of(t.as_str()),
            None => Vec::new(),
        };
        let lines = text::split_char(chars.as_slice(), '\n');
        proof {
            text::lemma_split_nonempty(chars@, '\n');
        }
        let row = lines.len() - 1;
        let col = lines[row].len();
        let d = Draft { lines, row, col };
        assert(d.doc() =~= lines_of(super::input::default_text(self.default)));
        d
    }
}

/// The lines joined by newlines.
fn joined(lines: &Vec<Vec<char>>) -> (r: String)
    requires
        lines@.len() >= 1,
    ensures
        r@ == join_with(Seq::new(lines@.len(), |i: int| lines@[i]@), '\n'),
{
    let ghost doc = Seq::new(lines@.len(), |i: int| lines@[i]@);
    let mut out = text::string_of(lines[0].as_slice());
    let mut i: usize = 1;
    assert(doc.subrange(0, 1).len() == 1);
    while i < lines.len()
        invariant
            1 <= i <= lines@.len(),
            doc == Seq::new(lines@.len(), |i: int| lines@[i]@),
            out@ == join_with(doc.subrange(0, i as int), '\n'),
        decreases lines.len() - i,
    {
        text::push_char(&mut out, '\n');
        let piece = text::string_of(lines[i].as_slice());
        text::push_str(&mut out, piece.as_str());
        proof {
            let s = doc.subrange(0, i + 1);
            assert(s.drop_last() =~= doc.subrange(0, i as int));
            assert(s.last() == lines@[i as int]@);
            assert(out@ =~= join_with(s.drop_last(), '\n') + seq!['\n'] + s.last());
        }
        i += 1;
    }
    assert(doc.subrange(0, lines@.len() as int) =~= doc);
    out
}

impl Draft {
    /// What pressing `key` does: Enter breaks the line at the caret, Ctrl-D answers the text,
    /// Esc cancels, backspace at the start of a line joins it to the one above, the arrows move
    /// across line ends, and Up and Down keep the column where the line allows.
    pub fn step(&mut self, key: Key) -> (r: WriteStep)
        requires
            old(self).wf(),
        ensures
            final(self).wf(),
            final(self).doc() == spec_write_step(old(self).doc(), old(self).row as nat, old(self).col as nat, key).0,
            final(self).row == spec_write_step(old(self).doc(), old(self).row as nat, old(self).col as nat, key).1,
            final(self).col == spec_write_step(old(self).doc(), old(self).row as nat, old(self).col as nat, key).2,
            (key is Delete && draft_text(old(self).doc()).len() > 0) ==> (r matches WriteStep::Done(
                Answer::Given(t),
            ) && t@ == draft_text(old(self).doc())),
            !(key is Delete && draft_text(old(self).doc()).len() > 0) ==> r == spec_write_outcome(old(self).doc(), key),
    {
        let ghost doc0 = self.doc();
        let row = self.row;
        let col = self.col;
        let n = self.lines.len();
        let len = self.lines[row].len();
        match key {
            Key::Cancel | Key::Abort => WriteStep::Done(Answer::Cancelled),
            Key::Delete => {
                let t = joined(&self.lines);
                assert(Seq::new(self.lines@.len(), |i: int| self.lines@[i]@) == doc0);
                if t.unicode_len() == 0 {
                    WriteStep::Done(Answer::Cancelled)
                } else {
                    WriteStep::Done(Answer::Given(t))
                }
            },
            Key::Accept => {
                let tail = self.lines[row].split_off(col);
                self.lines.insert(row + 1, tail);
                self.row = row + 1;
                self.col = 0;
                assert(self.doc() =~= spec_write_step(doc0, row as nat, col as nat, key).0);
                WriteStep::Editing
            },
            Key::Char(c) => {
                self.lines[row].insert(col, c);
                let _grown = self.lines[row].len();
                self.col = col + 1;
                assert(self.doc() =~= spec_write_step(doc0, row as nat, col as nat, key).0);
                WriteStep::Editing
            },
            Key::Backspace => {
                if col > 0 {
                    self.lines[row].remove(col - 1);
                    self.col = col - 1;
                    assert(self.doc() =~= spec_write_step(doc0, row as nat, col as nat, key).0);
                } else if row > 0 {
                    let mut joined_line = self.lines.remove(row);
                    let above = self.lines[row - 1].len();
                    self.lines[row - 1].append(&mut joined_line);
                    self.row = row - 1;
                    self.col = above;
                    assert(self.doc() =~= spec_write_step(doc0, row as nat, col as nat, key).0);
                }
                WriteStep::Editing
            },
            Key::Left => {
                if col > 0 {
                    self.col = col - 1;
                } else if row > 0 {
                    self.row = row - 1;
                    self.col = self.lines[row - 1].len();
                }
                WriteStep::Editing
            },
            Key::Right => {
                if col < len {
                    self.col = col + 1;
                } else if row + 1 < n {
                    self.row = row + 1;
                    self.col = 0;
                }
                WriteStep::Editing
            },
            Key::Up => {
                let r = if row > 0 {
                    row - 1
                } else {
                    0
                };
                let l = self.lines[r].len();
                self.row = r;
                self.col = if col < l {
                    col
                } else {
                    l
                };
                WriteStep::Editing
            },
            Key::Down => {
                let r = if row + 1 < n {
                    row + 1
                } else {
                    row
                };
                let l = self.lines[r].len();
                self.row = r;
                self.col = if col < l {
                    col
                } else {
                    l
                };
                WriteStep::Editing
            },
            Key::Home => {
                self.col = 0;
                WriteStep::Editing
            },
            Key::End => {
                self.col = len;
                WriteStep::Editing
            },
            Key::Clear => {
                self.lines[row].clear();
                self.col = 0;
                assert(self.doc() =~= spec_write_step(doc0, row as nat, col as nat, key).0);
                WriteStep::Editing
            },
            _ => WriteStep::Editing,
        }
    }
}

/// A default that is answered untouched comes back exactly as it was written: splitting it into
/// lines and joining them again loses nothing, blank lines and a trailing newline included.
pub proof fn law_an_untouched_default_answers_itself(t: Seq<char>)
    ensures
        draft_text(lines_of(t)) == t,
{
    text::lemma_join_undoes_split(t, '\n');
}

} // verus!
