//! `ui table` input: separated values, one row per line.
//!
//! The answer a table gives is the whole row in its original text, so each row is kept twice: as
//! its trimmed fields, for drawing and searching, and exactly as it arrived.

use vstd::prelude::*;
use crate::text::{self, fits, spec_is_whitespace, spec_trim, split_on};
use crate::prompt::{printed_width, width_from};
use super::Answer;
use crate::term::Key;

verus! {

/// A piece of text that ended at a newline, without the `\r` of a `\r\n`.
pub open spec fn strip_cr(p: Seq<char>) -> Seq<char> {
    if p.len() > 0 && p.last() == '\r' {
        p.drop_last()
    } else {
        p
    }
}

/// The lines of `s` as `str::lines` reads them — split at `\n`, a `\r` before it dropped — plus
/// the empty piece after a final newline, which is blank and so never a row.
pub open spec fn line_pieces(s: Seq<char>) -> Seq<Seq<char>> {
    let ps = split_on(s, '\n');
    Seq::new(ps.len(), |k: int| if k < ps.len() - 1 {
        strip_cr(ps[k])
    } else {
        ps[k]
    })
}

/// Whether a line holds anything but whitespace.
pub open spec fn is_row(line: Seq<char>) -> bool {
    spec_trim(line).len() > 0
}

/// The lines that are rows, in order.
pub open spec fn rows_of(lines: Seq<Seq<char>>) -> Seq<Seq<char>>
    decreases lines.len(),
{
    if lines.len() == 0 {
        seq![]
    } else if is_row(lines.last()) {
        rows_of(lines.drop_last()).push(lines.last())
    } else {
        rows_of(lines.drop_last())
    }
}

/// A row's fields: split at every `separator`, each trimmed.
pub open spec fn fields_of(row: Seq<char>, separator: char) -> Seq<Seq<char>> {
    let ps = split_on(row, separator);
    Seq::new(ps.len(), |k: int| spec_trim(ps[k]))
}

fn trim_is_empty(s: &[char]) -> (r: bool)
    ensures
        r == !is_row(s@),
{
    let t = text::trim(s);
    t.len() == 0
}

fn fields_x(row: &[char], separator: char) -> (r: Vec<String>)
    ensures
        r@.len() == fields_of(row@, separator).len(),
        forall|k: int| 0 <= k < r@.len() ==> (#[trigger] r@[k])@ == fields_of(row@, separator)[k],
{
    let ps = text::split_char(row, separator);
    let mut out: Vec<String> = Vec::new();
    let mut k: usize = 0;
    while k < ps.len()
        invariant
            k <= ps@.len(),
            ps@.len() == split_on(row@, separator).len(),
            forall|j: int| 0 <= j < ps@.len() ==> (#[trigger] ps@[j])@ == split_on(row@, separator)[j],
            out@.len() == k,
            forall|j: int| 0 <= j < k ==> (#[trigger] out@[j])@ == spec_trim(split_on(row@, separator)[j]),
        decreases ps.len() - k,
    {
        let t = text::trim(ps[k].as_slice());
        out.push(text::string_of(t.as_slice()));
        k += 1;
    }
    out
}

/// Split `text` into rows of fields on `separator`, skipping blank lines. Each row comes with
/// the line exactly as it arrived. A short row is not an error: it simply has fewer fields.
pub fn parse(text: &str, separator: char) -> (r: (Vec<Vec<String>>, Vec<String>))
    ensures
        r.0@.len() == rows_of(line_pieces(text@)).len(),
        r.1@.len() == rows_of(line_pieces(text@)).len(),
        forall|i: int| 0 <= i < r.1@.len() ==> (#[trigger] r.1@[i])@ == rows_of(line_pieces(text@))[i],
        forall|i: int| 0 <= i < r.0@.len() ==> (#[trigger] r.0@[i])@.len() == fields_of(rows_of(line_pieces(text@))[i], separator).len(),
        forall|i: int, k: int| 0 <= i < r.0@.len() && 0 <= k < r.0@[i]@.len() ==> (#[trigger] r.0@[i]@[k])@
            == fields_of(rows_of(line_pieces(text@))[i], separator)[k],
{
    let all = text::chars_of(text);
    let ps = text::split_char(all.as_slice(), '\n');
    let ghost lines = line_pieces(all@);
    let mut rows: Vec<Vec<String>> = Vec::new();
    let mut raw: Vec<String> = Vec::new();
    let mut k: usize = 0;
    proof {
        text::lemma_split_nonempty(all@, '\n');
    }
    while k < ps.len()
        invariant
            k <= ps@.len(),
            all@ == text@,
            lines == line_pieces(all@),
            ps@.len() == split_on(all@, '\n').len(),
            forall|j: int| 0 <= j < ps@.len() ==> (#[trigger] ps@[j])@ == split_on(all@, '\n')[j],
            raw@.len() == rows_of(lines.subrange(0, k as int)).len(),
            rows@.len() == raw@.len(),
            forall|i: int| 0 <= i < raw@.len() ==> (#[trigger] raw@[i])@ == rows_of(lines.subrange(0, k as int))[i],
            forall|i: int| 0 <= i < rows@.len() ==> (#[trigger] rows@[i])@.len() == fields_of(rows_of(lines.subrange(0, k as int))[i], separator).len(),
            forall|i: int, j: int| 0 <= i < rows@.len() && 0 <= j < rows@[i]@.len() ==> (#[trigger] rows@[i]@[j])@
                == fields_of(rows_of(lines.subrange(0, k as int))[i], separator)[j],
        decreases ps.len() - k,
    {
        let piece = &ps[k];
        let line = if k + 1 < ps.len() && piece.len() > 0 && piece[piece.len() - 1] == '\r' {
            text::slice_vec(piece.as_slice(), 0, piece.len() - 1)
        } else {
            text::slice_vec(piece.as_slice(), 0, piece.len())
        };
        let ghost before_raw = raw@;
        let ghost before_rows = rows@;
        proof {
            assert(piece@ == split_on(all@, '\n')[k as int]);
            if k + 1 < ps.len() && piece@.len() > 0 && piece@.last() == '\r' {
                assert(line@ =~= piece@.drop_last());
            } else {
                assert(line@ =~= piece@);
            }
            assert(line@ == lines[k as int]);
            assert(lines.subrange(0, k + 1).drop_last() =~= lines.subrange(0, k as int));
        }
        if !trim_is_empty(line.as_slice()) {
            let fields = fields_x(line.as_slice(), separator);
            rows.push(fields);
            raw.push(text::string_of(line.as_slice()));
            proof {
                let now = rows_of(lines.subrange(0, k + 1));
                assert(now == rows_of(lines.subrange(0, k as int)).push(line@));
                assert forall|i: int, j: int| 0 <= i < rows@.len() && 0 <= j < rows@[i]@.len() implies (#[trigger] rows@[i]@[j])@
                    == fields_of(now[i], separator)[j] by {
                    if i < rows@.len() - 1 {
                        assert(rows@[i] == before_rows[i]);
                    }
                }
                assert forall|i: int| 0 <= i < rows@.len() implies (#[trigger] rows@[i])@.len() == fields_of(now[i], separator).len() by {
                    if i < rows@.len() - 1 {
                        assert(rows@[i] == before_rows[i]);
                    }
                }
                assert forall|i: int| 0 <= i < raw@.len() implies (#[trigger] raw@[i])@ == now[i] by {
                    if i < raw@.len() - 1 {
                        assert(raw@[i] == before_raw[i]);
                    }
                }
            }
        }
        k += 1;
    }
    proof {
        assert(lines.subrange(0, ps@.len() as int) =~= lines);
    }
    (rows, raw)
}

/// How the table is asked.
#[derive(Debug, Clone)]
pub struct Table {
    /// Column names. Empty means the first row is the header.
    pub headers: Vec<String>,
    /// One vector of fields per row.
    pub rows: Vec<Vec<String>>,
    /// The rows as they arrived, answered verbatim so nothing is reformatted on the way out.
    pub raw: Vec<String>,
    pub height: usize,
    /// Narrow as you type, over every field of the row.
    pub filter: bool,
    /// The legend, the border, the screen and where on it.
    pub chrome: crate::ask::chrome::Chrome,
}

impl Default for Table {
    fn default() -> (r: Table)
        ensures
            r.headers@.len() == 0,
            r.rows@.len() == 0,
            r.raw@.len() == 0,
            r.height == 10,
            r.filter,
            r.chrome == crate::ask::chrome::Chrome::default_spec(),
    {
        Table {
            headers: Vec::new(),
            rows: Vec::new(),
            raw: Vec::new(),
            height: 10,
            filter: true,
            chrome: crate::ask::chrome::Chrome::default(),
        }
    }
}

/// The widest a column is drawn, in cells.
pub const MAX_COLUMN: usize = 30;

/// The cells a field takes once its escapes are discounted.
pub open spec fn field_width(f: String) -> nat {
    width_from(f@, 0)
}

/// The width of column `c`: its widest field among the header and every row that has one,
/// never more than [`MAX_COLUMN`].
pub open spec fn column_width(headers: Seq<String>, rows: Seq<Vec<String>>, c: int) -> nat {
    let widest = widest_in(rows, c, if 0 <= c < headers.len() { field_width(headers[c]) } else { 0 });
    if widest < MAX_COLUMN { widest } else { MAX_COLUMN as nat }
}

/// The widest field `c` among `rows`, starting from `best`.
pub open spec fn widest_in(rows: Seq<Vec<String>>, c: int, best: nat) -> nat
    decreases rows.len(),
{
    if rows.len() == 0 {
        best
    } else {
        let b = widest_in(rows.drop_last(), c, best);
        let r = rows.last()@;
        if 0 <= c < r.len() && field_width(r[c]) > b { field_width(r[c]) } else { b }
    }
}

/// How many columns the table has: as many as its longest row, or its header.
pub open spec fn column_count(headers: Seq<String>, rows: Seq<Vec<String>>) -> nat
    decreases rows.len(),
{
    if rows.len() == 0 {
        headers.len()
    } else {
        let n = column_count(headers, rows.drop_last());
        if rows.last()@.len() > n { rows.last()@.len() } else { n }
    }
}

impl Table {
    /// Every field holds text of a length a machine can measure.
    pub open spec fn fields_fit(&self) -> bool {
        &&& forall|i: int| 0 <= i < self.headers@.len() ==> fits((#[trigger] self.headers@[i])@)
        &&& forall|i: int, j: int| 0 <= i < self.rows@.len() && 0 <= j < self.rows@[i]@.len() ==> fits(
            (#[trigger] self.rows@[i]@[j])@,
        )
    }

    /// What the table answers before anything is drawn: an empty table is a cancel, which keeps
    /// `x=$(… | ui table) || exit` correct when the pipeline produced nothing; and with no
    /// terminal there is nobody to ask. `None` means ask.
    pub fn unasked(&self, terminal: bool) -> (r: Option<Answer<String>>)
        ensures
            r == (if self.rows@.len() == 0 {
                Some(Answer::<String>::Cancelled)
            } else if !terminal {
                Some(Answer::<String>::NoTerminal)
            } else {
                None
            }),
    {
        if self.rows.len() == 0 {
            Some(Answer::Cancelled)
        } else if !terminal {
            Some(Answer::NoTerminal)
        } else {
            None
        }
    }

    /// One width per column, from the header and every row, so the table is aligned before a
    /// key is pressed rather than shifting as it filters.
    pub fn column_widths(&self) -> (r: Vec<usize>)
        requires
            self.fields_fit(),
        ensures
            r@.len() == column_count(self.headers@, self.rows@),
            forall|c: int| 0 <= c < r@.len() ==> r@[c] == column_width(self.headers@, self.rows@, c),
    {
        let mut columns = self.headers.len();
        let mut i: usize = 0;
        while i < self.rows.len()
            invariant
                i <= self.rows@.len(),
                columns == column_count(self.headers@, self.rows@.subrange(0, i as int)),
            decreases self.rows.len() - i,
        {
            proof {
                assert(self.rows@.subrange(0, i + 1).drop_last() =~= self.rows@.subrange(0, i as int));
            }
            if self.rows[i].len() > columns {
                columns = self.rows[i].len();
            }
            i += 1;
        }
        assert(self.rows@.subrange(0, self.rows@.len() as int) =~= self.rows@);
        let mut widths: Vec<usize> = Vec::new();
        let mut c: usize = 0;
        while c < columns
            invariant
                c <= columns,
                columns == column_count(self.headers@, self.rows@),
                self.fields_fit(),
                widths@.len() == c,
                forall|k: int| 0 <= k < c ==> widths@[k] == column_width(self.headers@, self.rows@, k),
            decreases columns - c,
        {
            let mut best: usize = if c < self.headers.len() {
                proof {
                    crate::prompt::lemma_width_bound(self.headers@[c as int]@, 0);
                }
                printed_width(self.headers[c].as_str())
            } else {
                0
            };
            let ghost start = best as nat;
            let mut i: usize = 0;
            while i < self.rows.len()
                invariant
                    i <= self.rows@.len(),
                    c < columns,
                    self.fields_fit(),
                    best == widest_in(self.rows@.subrange(0, i as int), c as int, start),
                decreases self.rows.len() - i,
            {
                proof {
                    assert(self.rows@.subrange(0, i + 1).drop_last() =~= self.rows@.subrange(0, i as int));
                    assert(self.rows@.subrange(0, i + 1).last() == self.rows@[i as int]);
                }
                if c < self.rows[i].len() {
                    proof {
                        crate::prompt::lemma_width_bound(self.rows@[i as int]@[c as int]@, 0);
                    }
                    let w = printed_width(self.rows[i][c].as_str());
                    if w > best {
                        best = w;
                    }
                }
                i += 1;
            }
            assert(self.rows@.subrange(0, self.rows@.len() as int) =~= self.rows@);
            widths.push(if best < MAX_COLUMN {
                best
            } else {
                MAX_COLUMN
            });
            c += 1;
        }
        widths
    }
}


/// Where a table stands: the rows shown, best first, by index; the row under the cursor; the
/// first row drawn; and what has been typed.
#[derive(Debug, Clone)]
pub struct TablePicking {
    pub shown: Vec<usize>,
    pub selected: usize,
    pub offset: usize,
    pub query: String,
}

/// What a key left the table at.
#[derive(Debug, Clone, PartialEq, Eq)]
pub enum TableStep {
    /// Still choosing; draw the table again.
    Moving,
    /// The query changed: rank the rows against it and hand the order to
    /// [`TablePicking::show`].
    Requery,
    /// The question is settled.
    Done(Answer<String>),
}

/// What Enter answers: the row under the cursor exactly as it arrived, or nothing when no row is
/// under it.
pub open spec fn spec_table_answer(raw: Seq<String>, shown: Seq<usize>, selected: nat) -> Option<Seq<char>> {
    if selected < shown.len() && shown[selected as int] < raw.len() {
        Some(raw[shown[selected as int] as int]@)
    } else {
        None
    }
}

impl TablePicking {
    /// Every row shown is a row of the table.
    pub open spec fn wf(&self, spec: &Table) -> bool {
        forall|k: int| 0 <= k < self.shown@.len() ==> #[trigger] self.shown@[k] < spec.rows@.len()
    }

    /// A table as it first appears: every row in order, the cursor on the top, nothing typed.
    pub fn start(spec: &Table) -> (p: TablePicking)
        ensures
            p.wf(spec),
            p.shown@ == Seq::new(spec.rows@.len(), |i: int| i as usize),
            p.selected == 0,
            p.offset == 0,
            p.query@ == Seq::<char>::empty(),
    {
        let n = spec.rows.len();
        let mut shown: Vec<usize> = Vec::new();
        let mut i: usize = 0;
        while i < n
            invariant
                i <= n,
                n == spec.rows@.len(),
                shown@ == Seq::new(i as nat, |k: int| k as usize),
            decreases n - i,
        {
            shown.push(i);
            i += 1;
            assert(shown@ =~= Seq::new(i as nat, |k: int| k as usize));
        }
        TablePicking { shown, selected: 0, offset: 0, query: String::new() }
    }

    /// Show the rows in `order`, best first, with the cursor back on the top.
    pub fn show(&mut self, spec: &Table, order: Vec<usize>)
        requires
            forall|k: int| 0 <= k < order@.len() ==> #[trigger] order@[k] < spec.rows@.len(),
        ensures
            final(self).wf(spec),
            final(self).shown@ == order@,
            final(self).selected == 0,
            final(self).offset == 0,
            final(self).query@ == old(self).query@,
    {
        self.shown = order;
        self.selected = 0;
        self.offset = 0;
    }

    /// Keep the cursor on a row that exists and inside the `height` rows drawn.
    pub fn fit_window(&mut self, height: usize)
        requires
            height >= 1,
        ensures
            final(self).shown@ == old(self).shown@,
            final(self).query@ == old(self).query@,
            final(self).selected == (if old(self).selected >= old(self).shown@.len() {
                crate::ask::choice::last_row(old(self).shown@.len())
            } else {
                old(self).selected as nat
            }),
            final(self).offset == (if final(self).selected < old(self).offset {
                final(self).selected as int
            } else if final(self).selected >= old(self).offset + height {
                final(self).selected + 1 - height
            } else {
                old(self).offset as int
            }),
            final(self).offset <= final(self).selected < final(self).offset + height,
    {
        let n = self.shown.len();
        if self.selected >= n {
            self.selected = if n > 0 {
                n - 1
            } else {
                0
            };
        }
        if self.selected < self.offset {
            self.offset = self.selected;
        } else if self.selected - self.offset >= height {
            self.offset = self.selected + 1 - height;
        }
    }

    /// What pressing `key` does: Esc or Ctrl-C cancels; Enter answers the row under the cursor as
    /// it arrived, or cancels when no row is shown; the arrows and Home, End, Page Up and Down
    /// move the cursor; and typing, backspace and Ctrl-U edit the query of a filtering table.
    pub fn step(&mut self, spec: &Table, key: Key) -> (r: TableStep)
        requires
            old(self).wf(spec),
        ensures
            final(self).wf(spec),
            final(self).shown@ == old(self).shown@,
            final(self).offset == old(self).offset,
            (key is Cancel || key is Abort) ==> r == TableStep::Done(Answer::Cancelled),
            key is Accept ==> match spec_table_answer(spec.raw@, old(self).shown@, old(self).selected as nat) {
                Some(t) => r matches TableStep::Done(Answer::Given(s)) && s@ == t,
                None => r == TableStep::Done(Answer::Cancelled),
            },
            key is Up ==> r == TableStep::Moving && final(self).selected == (if old(self).selected > 0 {
                old(self).selected - 1
            } else {
                0
            }),
            key is Down ==> r == TableStep::Moving && final(self).selected == (if old(self).selected + 1
                < crate::ask::choice::last_row(old(self).shown@.len()) {
                old(self).selected + 1
            } else {
                crate::ask::choice::last_row(old(self).shown@.len()) as int
            }),
            (key is PageUp || key is Home) ==> r == TableStep::Moving && final(self).selected == 0,
            (key is PageDown || key is End) ==> r == TableStep::Moving && final(self).selected
                == crate::ask::choice::last_row(old(self).shown@.len()),
            (key is Up || key is Down || key is PageUp || key is Home || key is PageDown || key is End)
                ==> final(self).query@ == old(self).query@,
            (key matches Key::Char(c) && spec.filter) ==> ({
                &&& r == TableStep::Requery
                &&& final(self).query@ == old(self).query@.push(key->Char_0)
                &&& final(self).selected == old(self).selected
            }),
            (key is Backspace && spec.filter) ==> ({
                &&& r == TableStep::Requery
                &&& final(self).query@ == (if old(self).query@.len() > 0 {
                    old(self).query@.drop_last()
                } else {
                    old(self).query@
                })
                &&& final(self).selected == old(self).selected
            }),
            (key is Clear && spec.filter) ==> r == TableStep::Requery && final(self).query@
                == Seq::<char>::empty() && final(self).selected == old(self).selected,
            !(key is Cancel || key is Abort || key is Accept || key is Up || key is Down || key is PageUp
                || key is Home || key is PageDown || key is End || (key is Char && spec.filter) || (
            key is Backspace && spec.filter) || (key is Clear && spec.filter)) ==> r == TableStep::Moving
                && final(self).selected == old(self).selected && final(self).query@ == old(self).query@,
    {
        let n = self.shown.len();
        let last = if n > 0 {
            n - 1
        } else {
            0
        };
        match key {
            Key::Cancel | Key::Abort => TableStep::Done(Answer::Cancelled),
            Key::Accept => {
                if self.selected < n {
                    let at = self.shown[self.selected];
                    if at < spec.raw.len() {
                        let row = text::string_of(text::chars_of(spec.raw[at].as_str()).as_slice());
                        return TableStep::Done(Answer::Given(row));
                    }
                }
                TableStep::Done(Answer::Cancelled)
            },
            Key::Up => {
                if self.selected > 0 {
                    self.selected = self.selected - 1;
                }
                TableStep::Moving
            },
            Key::Down => {
                self.selected = if self.selected < last && self.selected + 1 < last {
                    self.selected + 1
                } else {
                    last
                };
                TableStep::Moving
            },
            Key::PageUp | Key::Home => {
                self.selected = 0;
                TableStep::Moving
            },
            Key::PageDown | Key::End => {
                self.selected = last;
                TableStep::Moving
            },
            _ => {
                if spec.filter {
                    match key {
                        Key::Char(c) => {
                            text::push_char(&mut self.query, c);
                            return TableStep::Requery;
                        },
                        Key::Backspace => {
                            let mut q = text::chars_of(self.query.as_str());
                            if q.len() > 0 {
                                q.pop();
                            }
                            self.query = text::string_of(q.as_slice());
                            return TableStep::Requery;
                        },
                        Key::Clear => {
                            self.query = String::new();
                            return TableStep::Requery;
                        },
                        _ => {},
                    }
                }
                TableStep::Moving
            },
        }
    }
}

} // verus!
