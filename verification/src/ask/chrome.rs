//! What a widget is wrapped in: the legend, a border, and where on the screen it sits.
//!
//! Every widget draws a *frame*, rows joined by `\r\n`, and this decides what surrounds it. The
//! questions compose: the legend (the keys, under a tear-off rule, after a gap), a border that
//! hugs the content or spans the terminal with padding inside it, a horizontal placement, and, on
//! a screen of the widget's own, a vertical one. Default chrome changes nothing at all.
//!
//! Widths are printed cells, escapes discounted, so colour inside a row never stretches a box. The
//! terminal's size is a parameter, so what a frame becomes can be stated and checked without one.

use vstd::prelude::*;
use crate::text::{self, fits, spec_trim};
use crate::prompt::{lemma_width_concat, plain_text, printed_width_chars, width_from};
use crate::dropdown::width::spec_char_width;

verus! {

/// How wide a border is drawn.
#[derive(Debug, Clone, Copy, PartialEq, Eq, Structural)]
pub enum Fit {
    /// As wide as the widest row inside it.
    Content,
    /// The full width of the terminal.
    Full,
}

impl Default for Fit {
    fn default() -> (f: Fit)
        ensures
            f == Fit::Content,
    {
        Fit::Content
    }
}

/// Where the frame sits.
#[derive(Debug, Clone, Copy, PartialEq, Eq, Structural)]
pub enum Place {
    Start,
    Center,
    End,
}

impl Default for Place {
    fn default() -> (p: Place)
        ensures
            p == Place::Start,
    {
        Place::Start
    }
}

pub open spec fn spec_fit(n: Seq<char>) -> Option<Fit> {
    if n == "content"@ || n == "fit"@ || n == "hug"@ {
        Some(Fit::Content)
    } else if n == "full"@ || n == "terminal"@ || n == "wide"@ {
        Some(Fit::Full)
    } else {
        None
    }
}

pub open spec fn spec_place(n: Seq<char>) -> Option<Place> {
    if n == "start"@ || n == "left"@ || n == "top"@ {
        Some(Place::Start)
    } else if n == "center"@ || n == "centre"@ || n == "middle"@ {
        Some(Place::Center)
    } else if n == "end"@ || n == "right"@ || n == "bottom"@ {
        Some(Place::End)
    } else {
        None
    }
}

/// Cells of padding before the content, given the room to spare.
pub open spec fn spec_offset(p: Place, slack: nat) -> nat {
    match p {
        Place::Start => 0,
        Place::Center => slack / 2,
        Place::End => slack,
    }
}

impl Fit {
    /// `content`, `fit` or `hug`; `full`, `terminal` or `wide`. Surrounding space is ignored, and
    /// any other name is refused so a typo does not quietly pick a fit.
    pub fn parse(name: &str) -> (r: Option<Fit>)
        ensures
            r == spec_fit(spec_trim(name@)),
    {
        let all = text::chars_of(name);
        let n = text::trim(all.as_slice());
        let n = n.as_slice();
        if text::eq_str(n, "content") || text::eq_str(n, "fit") || text::eq_str(n, "hug") {
            Some(Fit::Content)
        } else if text::eq_str(n, "full") || text::eq_str(n, "terminal") || text::eq_str(n, "wide") {
            Some(Fit::Full)
        } else {
            None
        }
    }
}

impl Place {
    /// `left`/`top` and `right`/`bottom` are the same two ends under different names, so one
    /// parser answers for both axes.
    pub fn parse(name: &str) -> (r: Option<Place>)
        ensures
            r == spec_place(spec_trim(name@)),
    {
        let all = text::chars_of(name);
        let n = text::trim(all.as_slice());
        let n = n.as_slice();
        if text::eq_str(n, "start") || text::eq_str(n, "left") || text::eq_str(n, "top") {
            Some(Place::Start)
        } else if text::eq_str(n, "center") || text::eq_str(n, "centre") || text::eq_str(n, "middle") {
            Some(Place::Center)
        } else if text::eq_str(n, "end") || text::eq_str(n, "right") || text::eq_str(n, "bottom") {
            Some(Place::End)
        } else {
            None
        }
    }

    /// How many cells of padding go before the content, given the room to spare.
    pub fn offset(self, slack: usize) -> (r: usize)
        ensures
            r == spec_offset(self, slack as nat),
            r <= slack,
    {
        match self {
            Place::Start => 0,
            Place::Center => slack / 2,
            Place::End => slack,
        }
    }
}


/// How a box is drawn.
#[derive(Debug, Clone, Copy, PartialEq, Eq, Structural)]
pub enum Border {
    /// No box at all.
    Off,
    /// Square corners.
    Square,
    /// Rounded corners.
    Rounded,
}

impl Default for Border {
    fn default() -> (b: Border)
        ensures
            b == Border::Off,
    {
        Border::Off
    }
}

/// A border's glyphs: the corners top left, top right, bottom left and bottom right (0 to 3),
/// then the horizontal wall (4) and the vertical one (5).
pub open spec fn glyph(b: Border, k: int) -> char {
    match b {
        Border::Rounded => if k == 0 {
            '╭'
        } else if k == 1 {
            '╮'
        } else if k == 2 {
            '╰'
        } else if k == 3 {
            '╯'
        } else if k == 4 {
            '─'
        } else {
            '│'
        },
        _ => if k == 0 {
            '┌'
        } else if k == 1 {
            '┐'
        } else if k == 2 {
            '└'
        } else if k == 3 {
            '┘'
        } else if k == 4 {
            '─'
        } else {
            '│'
        },
    }
}

fn glyph_of(b: Border, k: usize) -> (c: char)
    ensures
        c == glyph(b, k as int),
{
    match b {
        Border::Rounded => if k == 0 {
            '╭'
        } else if k == 1 {
            '╮'
        } else if k == 2 {
            '╰'
        } else if k == 3 {
            '╯'
        } else if k == 4 {
            '─'
        } else {
            '│'
        },
        _ => if k == 0 {
            '┌'
        } else if k == 1 {
            '┐'
        } else if k == 2 {
            '└'
        } else if k == 3 {
            '┘'
        } else if k == 4 {
            '─'
        } else {
            '│'
        },
    }
}

/// `n` copies of `c`.
pub open spec fn run_of(c: char, n: nat) -> Seq<char> {
    Seq::new(n, |_i: int| c)
}

/// `n` blank cells.
pub open spec fn blank(n: nat) -> Seq<char> {
    run_of(' ', n)
}

/// `n` copies of `c`.
fn push_run(out: &mut Vec<char>, c: char, n: usize)
    ensures
        final(out)@ == old(out)@ + run_of(c, n as nat),
{
    let ghost start = out@;
    let mut i: usize = 0;
    while i < n
        invariant
            i <= n,
            out@ == start + run_of(c, i as nat),
        decreases n - i,
    {
        out.push(c);
        i += 1;
        proof {
            assert(out@ =~= start + run_of(c, i as nat));
        }
    }
}

/// Everything that surrounds a widget's own rows.
#[derive(Debug, Clone, Copy, PartialEq, Eq)]
pub struct Chrome {
    /// Whether to draw the key legend.
    pub legend: bool,
    pub border: Border,
    pub fit: Fit,
    /// Blank rows between the content and the legend's rule.
    pub legend_gap: usize,
    /// Blank columns inside the border, each side.
    pub padding_x: usize,
    /// Blank rows inside the border, top and bottom.
    pub padding_y: usize,
    /// Draw on the alternate screen, which the terminal keeps out of the scrollback.
    pub fullscreen: bool,
    pub align_x: Place,
    pub align_y: Place,
}

impl Chrome {
    /// The legend on, after one blank row; no border, but one cell of padding ready for one; the
    /// top left of the screen the widget is already on.
    pub open spec fn default_spec() -> Chrome {
        Chrome {
            legend: true,
            border: Border::Off,
            fit: Fit::Content,
            legend_gap: 1,
            padding_x: 1,
            padding_y: 0,
            fullscreen: false,
            align_x: Place::Start,
            align_y: Place::Start,
        }
    }
}

impl Default for Chrome {
    /// See [`Chrome::default_spec`].
    fn default() -> (c: Chrome)
        ensures
            c == Chrome::default_spec(),
    {
        Chrome {
            legend: true,
            border: Border::Off,
            fit: Fit::Content,
            legend_gap: 1,
            padding_x: 1,
            padding_y: 0,
            fullscreen: false,
            align_x: Place::Start,
            align_y: Place::Start,
        }
    }
}

/// The bound on a count or a length that keeps every width computed from it in range.
pub open spec fn unit() -> int {
    usize::MAX as int / 128
}

pub open spec fn small(n: int) -> bool {
    n <= unit()
}

impl Chrome {
    /// Counts small enough for the arithmetic on them.
    pub open spec fn wf(&self) -> bool {
        &&& small(self.legend_gap as int)
        &&& small(self.padding_x as int)
        &&& small(self.padding_y as int)
    }

    pub open spec fn spec_pad_x(&self) -> nat {
        match self.border {
            Border::Off => 0,
            _ => self.padding_x as nat,
        }
    }

    pub open spec fn spec_pad_y(&self) -> nat {
        match self.border {
            Border::Off => 0,
            _ => self.padding_y as nat,
        }
    }

    pub open spec fn spec_legend_rows(&self) -> nat {
        if self.legend {
            (self.legend_gap + 2) as nat
        } else {
            0
        }
    }

    pub open spec fn spec_extra_rows(&self) -> nat {
        self.spec_legend_rows() + (match self.border {
            Border::Off => 0nat,
            _ => 2nat,
        }) + self.spec_pad_y() * 2
    }

    /// Whether anything here changes how the frame is drawn.
    pub fn is_plain(&self) -> (r: bool)
        ensures
            r == (!self.fullscreen && self.border == Border::Off && self.align_x == Place::Start),
    {
        !self.fullscreen && self.border == Border::Off && self.align_x == Place::Start
    }

    /// Cells of padding inside the border, each side; none without a border, where it would only
    /// be an indent.
    pub fn pad_x(&self) -> (r: usize)
        ensures
            r == self.spec_pad_x(),
    {
        match self.border {
            Border::Off => 0,
            _ => self.padding_x,
        }
    }

    /// Rows of padding inside the border, top and bottom; none without a border.
    pub fn pad_y(&self) -> (r: usize)
        ensures
            r == self.spec_pad_y(),
    {
        match self.border {
            Border::Off => 0,
            _ => self.padding_y,
        }
    }

    /// The rows the legend block adds: the gap, the rule and the keys; none with it off.
    pub fn legend_rows(&self) -> (r: usize)
        requires
            self.spec_legend_rows() <= usize::MAX,
        ensures
            r == self.spec_legend_rows(),
    {
        if self.legend {
            self.legend_gap + 2
        } else {
            0
        }
    }

    /// Every row the chrome adds around a frame, for a caller sizing its window.
    pub fn extra_rows(&self) -> (r: usize)
        requires
            self.spec_extra_rows() <= usize::MAX,
        ensures
            r == self.spec_extra_rows(),
    {
        let border: usize = match self.border {
            Border::Off => 0,
            _ => 2,
        };
        self.legend_rows() + border + self.pad_y() * 2
    }

    /// Blank rows above the frame to place it vertically, on a screen `screen_rows` tall. Only on
    /// the alternate screen: inline, pushing the widget down would scroll the caller's
    /// transcript.
    pub fn top_margin(&self, frame_rows: usize, screen_rows: usize) -> (r: usize)
        ensures
            r == (if !self.fullscreen || self.align_y == Place::Start {
                0
            } else {
                spec_offset(
                    self.align_y,
                    (if screen_rows > frame_rows {
                        screen_rows - frame_rows
                    } else {
                        0
                    }) as nat,
                )
            }),
    {
        if !self.fullscreen || self.align_y == Place::Start {
            return 0;
        }
        let slack = if screen_rows > frame_rows {
            screen_rows - frame_rows
        } else {
            0
        };
        self.align_y.offset(slack)
    }
}

/// The tear-off rule above the legend, `inside` cells wide: `- ` repeated, cut to the width,
/// with no trailing space.
pub open spec fn spec_rule(inside: nat) -> Seq<char> {
    Seq::new(
        if inside % 2 == 1 {
            inside
        } else if inside > 0 {
            (inside - 1) as nat
        } else {
            0
        },
        |i: int|
            if i % 2 == 0 {
                '-'
            } else {
                ' '
            },
    )
}

fn rule_chars(inside: usize) -> (r: Vec<char>)
    ensures
        r@ == spec_rule(inside as nat),
{
    let n = if inside % 2 == 1 {
        inside
    } else if inside > 0 {
        inside - 1
    } else {
        0
    };
    let mut r: Vec<char> = Vec::new();
    let mut i: usize = 0;
    while i < n
        invariant
            i <= n,
            n == spec_rule(inside as nat).len(),
            r@ == spec_rule(inside as nat).take(i as int),
        decreases n - i,
    {
        r.push(if i % 2 == 0 { '-' } else { ' ' });
        i += 1;
        proof {
            assert(r@ =~= spec_rule(inside as nat).take(i as int));
        }
    }
    proof {
        assert(r@ =~= spec_rule(inside as nat));
    }
    r
}

/// The legend: each key and what it does, the pairs joined by ` • `.
pub open spec fn spec_legend(keys: Seq<(&str, &str)>) -> Seq<char>
    decreases keys.len(),
{
    if keys.len() == 0 {
        seq![]
    } else {
        let pair = keys.last().0@ + seq![' '] + keys.last().1@;
        if keys.len() == 1 {
            pair
        } else {
            spec_legend(keys.drop_last()) + seq![' ', '•', ' '] + pair
        }
    }
}

/// The key legend as plain text.
pub fn legend_text(keys: &[(&str, &str)]) -> (r: String)
    ensures
        r@ == spec_legend(keys@),
{
    let mut out = String::new();
    let mut i: usize = 0;
    while i < keys.len()
        invariant
            i <= keys@.len(),
            out@ == spec_legend(keys@.take(i as int)),
        decreases keys.len() - i,
    {
        proof {
            assert(keys@.take(i + 1).drop_last() =~= keys@.take(i as int));
        }
        if i > 0 {
            text::push_char(&mut out, ' ');
            text::push_char(&mut out, '•');
            text::push_char(&mut out, ' ');
        }
        let (key, what) = keys[i];
        text::push_str(&mut out, key);
        text::push_char(&mut out, ' ');
        text::push_str(&mut out, what);
        i += 1;
        proof {
            assert(out@ =~= spec_legend(keys@.take(i as int)));
        }
    }
    proof {
        assert(keys@.take(keys@.len() as int) =~= keys@);
    }
    out
}


/// A frame cut at every `\r\n`, as `str::split` cuts it. The separator cannot overlap itself, so
/// cutting from the end finds the same pieces as cutting from the start.
pub open spec fn split_rows(s: Seq<char>) -> Seq<Seq<char>>
    decreases s.len(),
{
    if s.len() == 0 {
        seq![seq![]]
    } else if s.len() >= 2 && s[s.len() - 2] == '\r' && s[s.len() - 1] == '\n' {
        split_rows(s.take(s.len() - 2)).push(seq![])
    } else {
        let ps = split_rows(s.drop_last());
        ps.update(ps.len() - 1, ps.last().push(s.last()))
    }
}

pub proof fn lemma_split_rows(s: Seq<char>)
    ensures
        1 <= split_rows(s).len() <= s.len() + 1,
        forall|i: int| 0 <= i < split_rows(s).len() ==> (#[trigger] split_rows(s)[i]).len() <= s.len(),
    decreases s.len(),
{
    if s.len() >= 2 && s[s.len() - 2] == '\r' && s[s.len() - 1] == '\n' {
        lemma_split_rows(s.take(s.len() - 2));
    } else if s.len() > 0 {
        lemma_split_rows(s.drop_last());
    }
}

/// Where a row's leading carriage returns end.
pub open spec fn past_returns(r: Seq<char>, i: int) -> int
    decreases r.len() - i,
{
    if 0 <= i < r.len() && r[i] == '\r' {
        past_returns(r, i + 1)
    } else {
        i
    }
}

proof fn lemma_past_returns(r: Seq<char>, i: int)
    requires
        0 <= i <= r.len(),
    ensures
        i <= past_returns(r, i) <= r.len(),
    decreases r.len() - i,
{
    if i < r.len() && r[i] == '\r' {
        lemma_past_returns(r, i + 1);
    }
}

/// A row with the redraw escapes a widget put in front of it taken off: its carriage returns,
/// then one erase-to-end-of-line.
pub open spec fn clean_row(r: Seq<char>) -> Seq<char> {
    let t = r.skip(past_returns(r, 0));
    if t.len() >= 3 && t[0] == '\x1b' && t[1] == '[' && t[2] == 'K' {
        t.skip(3)
    } else {
        t
    }
}

/// The rows of a frame, with the redraw escapes stripped.
pub open spec fn spec_rows(f: Seq<char>) -> Seq<Seq<char>> {
    split_rows(f).map_values(|r: Seq<char>| clean_row(r))
}

fn split_frame(s: &[char]) -> (r: Vec<Vec<char>>)
    ensures
        r@.len() == split_rows(s@).len(),
        forall|i: int| 0 <= i < r@.len() ==> (#[trigger] r@[i])@ == split_rows(s@)[i],
{
    let n = s.len();
    let mut out: Vec<Vec<char>> = Vec::new();
    out.push(Vec::new());
    let mut i: usize = 0;
    proof {
        assert(s@.take(0) =~= Seq::<char>::empty());
    }
    while i < n
        invariant
            n == s@.len(),
            i <= n,
            i > 0 && i < n ==> !(s@[i - 1] == '\r' && s@[i as int] == '\n'),
            out@.len() == split_rows(s@.take(i as int)).len(),
            out@.len() > 0,
            forall|k: int| 0 <= k < out@.len() ==> (#[trigger] out@[k])@ == split_rows(s@.take(i as int))[k],
        decreases n - i,
    {
        let c = s[i];
        let ghost before = out@;
        if c == '\r' && i + 1 < n && s[i + 1] == '\n' {
            proof {
                assert(s@.take(i + 2).take(i as int) =~= s@.take(i as int));
            }
            out.push(Vec::new());
            i += 2;
        } else {
            proof {
                assert(s@.take(i + 1).drop_last() =~= s@.take(i as int));
            }
            let k = out.len();
            let mut last = out.remove(k - 1);
            last.push(c);
            out.push(last);
            i += 1;
        }
        proof {
            assert forall|k: int| 0 <= k < out@.len() implies (#[trigger] out@[k])@ == split_rows(
                s@.take(i as int),
            )[k] by {
                if k < out@.len() - 1 {
                    assert(out@[k] == before[k]);
                }
            }
        }
    }
    proof {
        assert(s@.take(n as int) =~= s@);
    }
    out
}

fn clean(r: &[char]) -> (c: Vec<char>)
    ensures
        c@ == clean_row(r@),
{
    proof {
        lemma_past_returns(r@, 0);
    }
    let mut i: usize = 0;
    while i < r.len() && r[i] == '\r'
        invariant
            i <= r@.len(),
            past_returns(r@, i as int) == past_returns(r@, 0),
        decreases r.len() - i,
    {
        i += 1;
    }
    if r.len() - i >= 3 && r[i] == '\x1b' && r[i + 1] == '[' && r[i + 2] == 'K' {
        i += 3;
    }
    text::slice_vec(r, i, r.len())
}

fn rows_chars(f: &[char]) -> (r: Vec<Vec<char>>)
    ensures
        r@.len() == spec_rows(f@).len(),
        forall|i: int| 0 <= i < r@.len() ==> (#[trigger] r@[i])@ == spec_rows(f@)[i],
{
    let pieces = split_frame(f);
    let mut out: Vec<Vec<char>> = Vec::new();
    let mut i: usize = 0;
    while i < pieces.len()
        invariant
            i <= pieces@.len(),
            pieces@.len() == split_rows(f@).len(),
            forall|k: int| 0 <= k < pieces@.len() ==> (#[trigger] pieces@[k])@ == split_rows(f@)[k],
            out@.len() == i,
            forall|k: int| 0 <= k < i ==> (#[trigger] out@[k])@ == spec_rows(f@)[k],
        decreases pieces.len() - i,
    {
        let c = clean(pieces[i].as_slice());
        out.push(c);
        i += 1;
    }
    out
}

/// The rows of a frame, with the redraw escapes stripped.
pub fn rows_of(frame: &str) -> (r: Vec<String>)
    ensures
        r@.len() == spec_rows(frame@).len(),
        forall|i: int| 0 <= i < r@.len() ==> (#[trigger] r@[i])@ == spec_rows(frame@)[i],
{
    let cs = text::chars_of(frame);
    let rows = rows_chars(cs.as_slice());
    let mut out: Vec<String> = Vec::new();
    let mut i: usize = 0;
    while i < rows.len()
        invariant
            i <= rows@.len(),
            cs@ == frame@,
            rows@.len() == spec_rows(frame@).len(),
            forall|k: int| 0 <= k < rows@.len() ==> (#[trigger] rows@[k])@ == spec_rows(frame@)[k],
            out@.len() == i,
            forall|k: int| 0 <= k < i ==> (#[trigger] out@[k])@ == spec_rows(frame@)[k],
        decreases rows.len() - i,
    {
        out.push(text::string_of(rows[i].as_slice()));
        i += 1;
    }
    out
}


/// The text of each row.
pub open spec fn views(v: Seq<Vec<char>>) -> Seq<Seq<char>> {
    v.map_values(|x: Vec<char>| x@)
}

/// No row is longer than `n` characters.
pub open spec fn rows_within(rows: Seq<Seq<char>>, n: int) -> bool {
    forall|i: int| 0 <= i < rows.len() ==> (#[trigger] rows[i]).len() <= n
}

/// The widest row, in printed cells.
pub open spec fn widest(rows: Seq<Seq<char>>) -> nat
    decreases rows.len(),
{
    if rows.len() == 0 {
        0
    } else {
        let w = width_from(rows.last(), 0);
        let rest = widest(rows.drop_last());
        if w > rest {
            w
        } else {
            rest
        }
    }
}

proof fn lemma_widest_bound(rows: Seq<Seq<char>>, n: int)
    requires
        0 <= n,
        rows_within(rows, n),
    ensures
        widest(rows) <= 2 * n,
    decreases rows.len(),
{
    if rows.len() > 0 {
        assert(rows.last() == rows[rows.len() - 1]);
        crate::prompt::lemma_width_bound(rows.last(), 0);
        assert(rows_within(rows.drop_last(), n)) by {
            assert forall|i: int| 0 <= i < rows.drop_last().len() implies (
            #[trigger] rows.drop_last()[i]).len() <= n by {
                assert(rows.drop_last()[i] == rows[i]);
            }
        }
        lemma_widest_bound(rows.drop_last(), n);
    }
}

fn widest_of(rows: &Vec<Vec<char>>) -> (w: usize)
    requires
        rows_within(views(rows@), 16 * unit()),
    ensures
        w == widest(views(rows@)),
{
    let mut w: usize = 0;
    let mut i: usize = 0;
    while i < rows.len()
        invariant
            i <= rows@.len(),
            rows_within(views(rows@), 16 * unit()),
            w == widest(views(rows@).take(i as int)),
        decreases rows.len() - i,
    {
        proof {
            assert(views(rows@).take(i + 1).drop_last() =~= views(rows@).take(i as int));
            assert(views(rows@)[i as int] == rows@[i as int]@);
            assert(fits(rows@[i as int]@));
        }
        let here = printed_width_chars(rows[i].as_slice());
        if here > w {
            w = here;
        }
        i += 1;
    }
    proof {
        assert(views(rows@).take(rows@.len() as int) =~= views(rows@));
    }
    w
}

/// The width the content is laid out to, before padding and border: the widest row, or for a
/// full-width box the terminal less the two walls and the padding, if that is wider.
pub open spec fn spec_inside(c: Chrome, rows: Seq<Seq<char>>, cols: nat) -> nat {
    let w = widest(rows);
    match c.fit {
        Fit::Content => w,
        Fit::Full => {
            let room: nat = if cols > 2 + 2 * c.spec_pad_x() {
                (cols - (2 + 2 * c.spec_pad_x())) as nat
            } else {
                0
            };
            if room > w {
                room
            } else {
                w
            }
        },
    }
}

/// A row padded to `inside` cells, with `side` blank cells each side of it.
pub open spec fn pad_row(side: nat, inside: nat, r: Seq<char>) -> Seq<char> {
    let w = width_from(r, 0);
    blank(side) + r + blank(
        if inside > w {
            (inside - w) as nat
        } else {
            0
        },
    ) + blank(side)
}

/// Every row squared off to the same width, with the blank rows above and below.
pub open spec fn spec_padded(c: Chrome, rows: Seq<Seq<char>>, inside: nat) -> Seq<Seq<char>> {
    let side = c.spec_pad_x();
    let empty = blank(side + inside + side);
    Seq::new(c.spec_pad_y(), |_i: int| empty) + rows.map_values(|r: Seq<char>| pad_row(side, inside, r))
        + Seq::new(c.spec_pad_y(), |_i: int| empty)
}

/// The rows of a box `width` cells across inside: a lid, each row between two walls, a base.
pub open spec fn spec_boxed(b: Border, rows: Seq<Seq<char>>, width: nat) -> Seq<Seq<char>> {
    seq![seq![glyph(b, 0)] + run_of(glyph(b, 4), width) + seq![glyph(b, 1)]] + rows.map_values(
        |r: Seq<char>| seq![glyph(b, 5)] + r + seq![glyph(b, 5)],
    ) + seq![seq![glyph(b, 2)] + run_of(glyph(b, 4), width) + seq![glyph(b, 3)]]
}

/// The whole frame moved right by the same amount on every row, so it does not shear.
pub open spec fn spec_indented(c: Chrome, rows: Seq<Seq<char>>, cols: nat) -> Seq<Seq<char>> {
    if c.align_x == Place::Start {
        rows
    } else {
        let w = widest(rows);
        let lead = blank(
            spec_offset(
                c.align_x,
                if cols > w {
                    (cols - w) as nat
                } else {
                    0
                },
            ),
        );
        rows.map_values(|r: Seq<char>| lead + r)
    }
}

fn push_blank_rows(out: &mut Vec<Vec<char>>, width: usize, n: usize)
    ensures
        views(final(out)@) == views(old(out)@) + Seq::new(n as nat, |_i: int| blank(width as nat)),
{
    let ghost start = views(out@);
    let mut i: usize = 0;
    while i < n
        invariant
            i <= n,
            views(out@) == start + Seq::new(i as nat, |_i: int| blank(width as nat)),
        decreases n - i,
    {
        let mut row: Vec<char> = Vec::new();
        push_run(&mut row, ' ', width);
        proof {
            assert(row@ =~= blank(width as nat));
        }
        let ghost before = out@;
        out.push(row);
        i += 1;
        proof {
            assert(views(out@) =~= views(before).push(blank(width as nat)));
            assert(views(out@) =~= start + Seq::new(i as nat, |_i: int| blank(width as nat)));
        }
    }
}

fn padded_rows(c: &Chrome, rows: &Vec<Vec<char>>, inside: usize) -> (r: Vec<Vec<char>>)
    requires
        c.wf(),
        rows_within(views(rows@), 2 * unit()),
        inside <= 2 * unit(),
    ensures
        views(r@) == spec_padded(*c, views(rows@), inside as nat),
        rows_within(views(r@), 6 * unit()),
{
    let side = c.pad_x();
    let pad = c.pad_y();
    let mut out: Vec<Vec<char>> = Vec::new();
    push_blank_rows(&mut out, side + inside + side, pad);
    let ghost top = views(out@);
    let mut i: usize = 0;
    while i < rows.len()
        invariant
            i <= rows@.len(),
            side == c.spec_pad_x(),
            c.wf(),
            rows_within(views(rows@), 2 * unit()),
            inside <= 2 * unit(),
            top == Seq::new(c.spec_pad_y(), |_i: int| blank((side + inside + side) as nat)),
            views(out@) == top + views(rows@).take(i as int).map_values(
                |r: Seq<char>| pad_row(side as nat, inside as nat, r),
            ),
        decreases rows.len() - i,
    {
        let row = &rows[i];
        proof {
            assert(views(rows@)[i as int] == row@);
        }
        let w = printed_width_chars(row.as_slice());
        let fill = if inside > w {
            inside - w
        } else {
            0
        };
        let mut line: Vec<char> = Vec::new();
        push_run(&mut line, ' ', side);
        let mut k: usize = 0;
        while k < row.len()
            invariant
                k <= row@.len(),
                line@ == blank(side as nat) + row@.take(k as int),
            decreases row.len() - k,
        {
            line.push(row[k]);
            k += 1;
            proof {
                assert(line@ =~= blank(side as nat) + row@.take(k as int));
            }
        }
        proof {
            assert(row@.take(row@.len() as int) =~= row@);
        }
        push_run(&mut line, ' ', fill);
        push_run(&mut line, ' ', side);
        proof {
            assert(line@ =~= pad_row(side as nat, inside as nat, row@));
        }
        let ghost before = out@;
        out.push(line);
        i += 1;
        proof {
            assert(views(out@) =~= views(before).push(pad_row(side as nat, inside as nat, row@)));
            assert(views(rows@).take(i as int) =~= views(rows@).take(i - 1).push(row@));
            assert(views(out@) =~= top + views(rows@).take(i as int).map_values(
                |r: Seq<char>| pad_row(side as nat, inside as nat, r),
            ));
        }
    }
    push_blank_rows(&mut out, side + inside + side, pad);
    proof {
        assert(views(rows@).take(rows@.len() as int) =~= views(rows@));
        assert(views(out@) =~= spec_padded(*c, views(rows@), inside as nat));
        assert forall|j: int| 0 <= j < views(out@).len() implies (#[trigger] views(out@)[j]).len()
            <= 6 * unit() by {
            let m = views(rows@).len();
            if c.spec_pad_y() <= j < c.spec_pad_y() + m {
                let r = views(rows@)[j - c.spec_pad_y()];
                assert(views(out@)[j] == pad_row(side as nat, inside as nat, r));
            }
        }
    }
    out
}


fn boxed_rows(b: Border, rows: &Vec<Vec<char>>, width: usize) -> (r: Vec<Vec<char>>)
    requires
        rows_within(views(rows@), 6 * unit()),
        width <= 4 * unit(),
    ensures
        views(r@) == spec_boxed(b, views(rows@), width as nat),
        rows_within(views(r@), 6 * unit() + 2),
{
    let mut out: Vec<Vec<char>> = Vec::new();
    let mut lid: Vec<char> = Vec::new();
    lid.push(glyph_of(b, 0));
    push_run(&mut lid, glyph_of(b, 4), width);
    lid.push(glyph_of(b, 1));
    proof {
        assert(lid@ =~= seq![glyph(b, 0)] + run_of(glyph(b, 4), width as nat) + seq![glyph(b, 1)]);
    }
    out.push(lid);
    let wall = glyph_of(b, 5);
    proof {
        assert(views(out@) =~= seq![seq![glyph(b, 0)] + run_of(glyph(b, 4), width as nat) + seq![glyph(b, 1)]]
            + views(rows@).take(0).map_values(|r: Seq<char>| seq![glyph(b, 5)] + r + seq![glyph(b, 5)]));
    }
    let mut i: usize = 0;
    while i < rows.len()
        invariant
            i <= rows@.len(),
            wall == glyph(b, 5),
            rows_within(views(rows@), 6 * unit()),
            width <= 4 * unit(),
            views(out@) == seq![seq![glyph(b, 0)] + run_of(glyph(b, 4), width as nat) + seq![glyph(b, 1)]]
                + views(rows@).take(i as int).map_values(|r: Seq<char>| seq![glyph(b, 5)] + r + seq![glyph(b, 5)]),
        decreases rows.len() - i,
    {
        let row = &rows[i];
        proof {
            assert(views(rows@)[i as int] == row@);
        }
        let mut line: Vec<char> = Vec::new();
        line.push(wall);
        let mut k: usize = 0;
        while k < row.len()
            invariant
                k <= row@.len(),
                line@ == seq![wall] + row@.take(k as int),
            decreases row.len() - k,
        {
            line.push(row[k]);
            k += 1;
            proof {
                assert(line@ =~= seq![wall] + row@.take(k as int));
            }
        }
        line.push(wall);
        proof {
            assert(row@.take(row@.len() as int) =~= row@);
            assert(line@ =~= seq![glyph(b, 5)] + row@ + seq![glyph(b, 5)]);
        }
        let ghost before = out@;
        out.push(line);
        i += 1;
        proof {
            assert(views(out@) =~= views(before).push(seq![glyph(b, 5)] + row@ + seq![glyph(b, 5)]));
            assert(views(rows@).take(i as int) =~= views(rows@).take(i - 1).push(row@));
            assert(views(out@) =~= seq![seq![glyph(b, 0)] + run_of(glyph(b, 4), width as nat) + seq![glyph(b, 1)]]
                + views(rows@).take(i as int).map_values(|r: Seq<char>| seq![glyph(b, 5)] + r + seq![glyph(b, 5)]));
        }
    }
    let mut base: Vec<char> = Vec::new();
    base.push(glyph_of(b, 2));
    push_run(&mut base, glyph_of(b, 4), width);
    base.push(glyph_of(b, 3));
    proof {
        assert(base@ =~= seq![glyph(b, 2)] + run_of(glyph(b, 4), width as nat) + seq![glyph(b, 3)]);
    }
    let ghost before = out@;
    out.push(base);
    proof {
        assert(views(out@) =~= views(before).push(base@));
        assert(views(rows@).take(rows@.len() as int) =~= views(rows@));
        assert(views(out@) =~= spec_boxed(b, views(rows@), width as nat));
        assert forall|j: int| 0 <= j < views(out@).len() implies (#[trigger] views(out@)[j]).len()
            <= 6 * unit() + 2 by {
            if 0 < j < views(out@).len() - 1 {
                assert(views(out@)[j] == seq![glyph(b, 5)] + views(rows@)[j - 1] + seq![glyph(b, 5)]);
            }
        }
    }
    out
}

fn indented_rows(c: &Chrome, rows: Vec<Vec<char>>, cols: usize) -> (r: Vec<Vec<char>>)
    requires
        rows_within(views(rows@), 6 * unit() + 2),
        small(cols as int),
    ensures
        views(r@) == spec_indented(*c, views(rows@), cols as nat),
        rows_within(views(r@), 7 * unit() + 2),
{
    if c.align_x == Place::Start {
        proof {
            assert forall|j: int| 0 <= j < views(rows@).len() implies (#[trigger] views(rows@)[j]).len()
                <= 7 * unit() + 2 by {
                assert(views(rows@)[j].len() <= 6 * unit() + 2);
            }
        }
        return rows;
    }
    let w = widest_of(&rows);
    let slack = if cols > w {
        cols - w
    } else {
        0
    };
    let n = c.align_x.offset(slack);
    let ghost lead = blank(n as nat);
    let mut out: Vec<Vec<char>> = Vec::new();
    let mut i: usize = 0;
    while i < rows.len()
        invariant
            i <= rows@.len(),
            lead == blank(n as nat),
            n <= unit(),
            rows_within(views(rows@), 6 * unit() + 2),
            views(out@) == views(rows@).take(i as int).map_values(|r: Seq<char>| lead + r),
            rows_within(views(out@), 7 * unit() + 2),
        decreases rows.len() - i,
    {
        let row = &rows[i];
        proof {
            assert(views(rows@)[i as int] == row@);
        }
        let mut line: Vec<char> = Vec::new();
        push_run(&mut line, ' ', n);
        let mut k: usize = 0;
        while k < row.len()
            invariant
                k <= row@.len(),
                line@ == blank(n as nat) + row@.take(k as int),
            decreases row.len() - k,
        {
            line.push(row[k]);
            k += 1;
            proof {
                assert(line@ =~= blank(n as nat) + row@.take(k as int));
            }
        }
        proof {
            assert(row@.take(row@.len() as int) =~= row@);
            assert(line@ =~= lead + row@);
        }
        let ghost before = out@;
        out.push(line);
        i += 1;
        proof {
            assert(views(out@) =~= views(before).push(lead + row@));
            assert(views(rows@).take(i as int) =~= views(rows@).take(i - 1).push(row@));
            assert(views(out@) =~= views(rows@).take(i as int).map_values(|r: Seq<char>| lead + r));
            assert forall|j: int| 0 <= j < views(out@).len() implies (#[trigger] views(out@)[j]).len()
                <= 7 * unit() + 2 by {
                if j < views(out@).len() - 1 {
                    assert(views(out@)[j] == views(before)[j]);
                }
            }
        }
    }
    proof {
        assert(views(rows@).take(rows@.len() as int) =~= views(rows@));
    }
    out
}

/// The redraw a widget puts before each row: back to the first column, then erase the row.
pub open spec fn erase() -> Seq<char> {
    seq!['\r', '\x1b', '[', 'K']
}

/// The rows written out, each after its erase and joined by `\r\n`.
pub open spec fn joined_rows(rows: Seq<Seq<char>>) -> Seq<char>
    decreases rows.len(),
{
    if rows.len() == 0 {
        seq![]
    } else if rows.len() == 1 {
        erase() + rows[0]
    } else {
        joined_rows(rows.drop_last()) + seq!['\r', '\n'] + erase() + rows.last()
    }
}

fn joined(rows: &Vec<Vec<char>>) -> (r: String)
    ensures
        r@ == joined_rows(views(rows@)),
{
    let mut out = String::new();
    let mut i: usize = 0;
    while i < rows.len()
        invariant
            i <= rows@.len(),
            out@ == joined_rows(views(rows@).take(i as int)),
        decreases rows.len() - i,
    {
        proof {
            assert(views(rows@).take(i + 1).drop_last() =~= views(rows@).take(i as int));
            assert(views(rows@)[i as int] == rows@[i as int]@);
        }
        if i > 0 {
            text::push_char(&mut out, '\r');
            text::push_char(&mut out, '\n');
        }
        text::push_char(&mut out, '\r');
        text::push_char(&mut out, '\x1b');
        text::push_char(&mut out, '[');
        text::push_char(&mut out, 'K');
        let line = text::string_of(rows[i].as_slice());
        text::push_str(&mut out, line.as_str());
        i += 1;
        proof {
            assert(out@ =~= joined_rows(views(rows@).take(i as int)));
        }
    }
    proof {
        assert(views(rows@).take(rows@.len() as int) =~= views(rows@));
    }
    out
}


proof fn lemma_rows_within(f: Seq<char>)
    ensures
        rows_within(spec_rows(f), f.len() as int),
{
    lemma_split_rows(f);
    assert forall|i: int| 0 <= i < spec_rows(f).len() implies (#[trigger] spec_rows(f)[i]).len()
        <= f.len() by {
        let r = split_rows(f)[i];
        lemma_past_returns(r, 0);
        assert(spec_rows(f)[i] == clean_row(r));
    }
}

/// Whether a frame begins on the row below the prompt, as every widget's does.
pub open spec fn leads(f: Seq<char>) -> bool {
    f.len() >= 2 && f[0] == '\r' && f[1] == '\n'
}

/// The rows a frame holds. The row before a leading `\r\n` is the caller's, not content.
pub open spec fn content_rows(f: Seq<char>) -> Seq<Seq<char>> {
    let r = spec_rows(f);
    if leads(f) && r.len() > 0 && r[0].len() == 0 {
        r.drop_first()
    } else {
        r
    }
}

/// Whether the legend is drawn: asked for, and there are keys to put in it.
pub open spec fn has_legend(c: Chrome, keys: Seq<(&str, &str)>) -> bool {
    c.legend && keys.len() > 0
}

/// The content and, under it, the gap, a place for the rule and the keys.
pub open spec fn with_legend(c: Chrome, rows: Seq<Seq<char>>, keys: Seq<(&str, &str)>) -> Seq<
    Seq<char>,
> {
    if has_legend(c, keys) {
        rows + Seq::new(c.legend_gap as nat, |_i: int| blank(0)) + seq![blank(0), spec_legend(keys)]
    } else {
        rows
    }
}

/// The rows inside the box, with the rule drawn across the whole width they are laid out to.
pub open spec fn ruled(c: Chrome, rows: Seq<Seq<char>>, keys: Seq<(&str, &str)>, inside: nat) -> Seq<
    Seq<char>,
> {
    if has_legend(c, keys) {
        rows.update(rows.len() - 2, spec_rule(inside))
    } else {
        rows
    }
}

/// The finished rows: padded, boxed if there is a border, and placed.
pub open spec fn spec_drawn(c: Chrome, f: Seq<char>, keys: Seq<(&str, &str)>, cols: nat) -> Seq<
    Seq<char>,
> {
    let rows = with_legend(c, content_rows(f), keys);
    let inside = spec_inside(c, rows, cols);
    let padded = spec_padded(c, ruled(c, rows, keys, inside), inside);
    let boxed = if c.border == Border::Off {
        padded
    } else {
        spec_boxed(c.border, padded, inside + 2 * c.spec_pad_x())
    };
    spec_indented(c, boxed, cols)
}

/// A frame wrapped in its chrome, on a terminal `cols` wide.
pub open spec fn spec_wrap(c: Chrome, f: Seq<char>, keys: Seq<(&str, &str)>, cols: nat) -> Seq<
    char,
> {
    let body = joined_rows(spec_drawn(c, f, keys, cols));
    if leads(f) {
        seq!['\r', '\n'] + body
    } else {
        body
    }
}

impl Chrome {
    /// The frame's own rows, with the legend block laid out under them.
    fn laid_rows(&self, cs: &[char], keys: &[(&str, &str)]) -> (rows: Vec<Vec<char>>)
        requires
            small(cs@.len() as int),
            small(spec_legend(keys@).len() as int),
        ensures
            views(rows@) == with_legend(*self, content_rows(cs@), keys@),
            rows_within(views(rows@), unit()),
    {
        let lead = cs.len() >= 2 && cs[0] == '\r' && cs[1] == '\n';
        let mut rows = rows_chars(cs);
        proof {
            lemma_rows_within(cs@);
        }
        if lead && rows.len() > 0 && rows[0].len() == 0 {
            let ghost before = rows@;
            rows.remove(0);
            proof {
                assert(views(rows@) =~= views(before).drop_first());
            }
        }
        proof {
            assert(views(rows@) =~= content_rows(cs@));
        }
        if self.legend && keys.len() > 0 {
            push_blank_rows(&mut rows, 0, self.legend_gap);
            let ghost before = rows@;
            let empty: Vec<char> = Vec::new();
            proof {
                assert(empty@ =~= blank(0));
            }
            rows.push(empty);
            let lt = legend_text(keys);
            rows.push(text::chars_of(lt.as_str()));
            proof {
                assert(views(rows@) =~= views(before) + seq![blank(0), spec_legend(keys@)]);
            }
        }
        proof {
            let laid = views(rows@);
            assert(laid =~= with_legend(*self, content_rows(cs@), keys@));
            assert forall|j: int| 0 <= j < laid.len() implies (#[trigger] laid[j]).len() <= unit() by {
                let m = content_rows(cs@).len();
                if j < m {
                    if leads(cs@) && spec_rows(cs@).len() > 0 && spec_rows(cs@)[0].len() == 0 {
                        assert(content_rows(cs@)[j] == spec_rows(cs@)[j + 1]);
                    } else {
                        assert(content_rows(cs@)[j] == spec_rows(cs@)[j]);
                    }
                }
            }
        }
        rows
    }

    /// The width the content is laid out to.
    fn inside_of(&self, rows: &Vec<Vec<char>>, cols: usize) -> (inside: usize)
        requires
            self.wf(),
            rows_within(views(rows@), unit()),
            small(cols as int),
        ensures
            inside == spec_inside(*self, views(rows@), cols as nat),
            inside <= 2 * unit(),
    {
        proof {
            lemma_widest_bound(views(rows@), unit());
        }
        let widest_row = widest_of(rows);
        let pad = self.pad_x();
        match self.fit {
            Fit::Content => widest_row,
            Fit::Full => {
                let room = if cols > 2 + 2 * pad {
                    cols - (2 + 2 * pad)
                } else {
                    0
                };
                if room > widest_row {
                    room
                } else {
                    widest_row
                }
            },
        }
    }

    /// The rule drawn into the place kept for it, across the whole width.
    fn rule_in(&self, rows: &mut Vec<Vec<char>>, keys: &[(&str, &str)], inside: usize)
        requires
            has_legend(*self, keys@) ==> old(rows)@.len() >= 2,
            rows_within(views(old(rows)@), unit()),
            inside <= 2 * unit(),
        ensures
            views(final(rows)@) == ruled(*self, views(old(rows)@), keys@, inside as nat),
            rows_within(views(final(rows)@), 2 * unit()),
    {
        let ghost before = rows@;
        if self.legend && keys.len() > 0 {
            let at = rows.len() - 2;
            rows[at] = rule_chars(inside);
            proof {
                assert(views(rows@) =~= views(before).update(at as int, spec_rule(inside as nat)));
            }
        }
        proof {
            assert forall|j: int| 0 <= j < views(rows@).len() implies (#[trigger] views(rows@)[j]).len()
                <= 2 * unit() by {
                if !(has_legend(*self, keys@) && j == views(rows@).len() - 2) {
                    assert(views(rows@)[j] == views(before)[j]);
                }
            }
        }
    }

    /// The rows as drawn: padded, boxed if there is a border, and placed.
    fn drawn_rows(&self, cs: &[char], keys: &[(&str, &str)], cols: usize) -> (r: Vec<Vec<char>>)
        requires
            self.wf(),
            small(cs@.len() as int),
            small(spec_legend(keys@).len() as int),
            small(cols as int),
        ensures
            views(r@) == spec_drawn(*self, cs@, keys@, cols as nat),
    {
        let mut rows = self.laid_rows(cs, keys);
        let ghost laid = views(rows@);
        let inside = self.inside_of(&rows, cols);
        self.rule_in(&mut rows, keys, inside);
        let padded = padded_rows(self, &rows, inside);
        let boxed = if self.border == Border::Off {
            proof {
                assert forall|j: int| 0 <= j < views(padded@).len() implies (#[trigger] views(
                    padded@,
                )[j]).len() <= 6 * unit() + 2 by {
                    assert(views(padded@)[j].len() <= 6 * unit());
                }
            }
            padded
        } else {
            boxed_rows(self.border, &padded, inside + 2 * self.pad_x())
        };
        indented_rows(self, boxed, cols)
    }

    /// Wrap `frame` in whatever this asks for, with `keys` in the legend under it, on a terminal
    /// `cols` wide.
    ///
    /// The legend is laid out here rather than by the widget because its rule has to span the
    /// finished box, which is not known until the legend's own width has been counted.
    pub fn wrap(&self, frame: &str, keys: &[(&str, &str)], cols: usize) -> (r: String)
        requires
            self.wf(),
            small(frame@.len() as int),
            small(spec_legend(keys@).len() as int),
            small(cols as int),
        ensures
            r@ == spec_wrap(*self, frame@, keys@, cols as nat),
    {
        let cs = text::chars_of(frame);
        let lead = cs.len() >= 2 && cs[0] == '\r' && cs[1] == '\n';
        let placed = self.drawn_rows(cs.as_slice(), keys, cols);
        let body = joined(&placed);
        if lead {
            let mut out = String::new();
            text::push_char(&mut out, '\r');
            text::push_char(&mut out, '\n');
            text::push_str(&mut out, body.as_str());
            out
        } else {
            body
        }
    }
}


/// What a widget reserves is what is drawn: the frame's own rows and `extra_rows` more, whenever
/// the legend is off or has keys to show. A window sized against any other number eats a row of
/// the caller's transcript per keystroke.
pub proof fn law_the_reserved_rows_are_the_drawn_ones(
    c: Chrome,
    f: Seq<char>,
    keys: Seq<(&str, &str)>,
    cols: nat,
)
    requires
        !c.legend || keys.len() > 0,
    ensures
        spec_drawn(c, f, keys, cols).len() == content_rows(f).len() + c.spec_extra_rows(),
{
    let rows = with_legend(c, content_rows(f), keys);
    let inside = spec_inside(c, rows, cols);
    let r = ruled(c, rows, keys, inside);
    assert(r.len() == rows.len());
    let padded = spec_padded(c, r, inside);
    assert(padded.len() == r.len() + 2 * c.spec_pad_y());
    let boxed = if c.border == Border::Off {
        padded
    } else {
        spec_boxed(c.border, padded, inside + 2 * c.spec_pad_x())
    };
    assert(spec_indented(c, boxed, cols).len() == boxed.len());
}


/// Every row is plain text `w` cells wide.
pub open spec fn uniform(rows: Seq<Seq<char>>, w: nat) -> bool {
    forall|i: int| 0 <= i < rows.len() ==> plain_text(#[trigger] rows[i]) && width_from(rows[i], 0) == w
}

/// Characters that each take one cell and never start an escape.
spec fn narrow(s: Seq<char>) -> bool {
    forall|i: int|
        0 <= i < s.len() ==> s[i] != '\x1b' && s[i] != '\u{fe0f}' && spec_char_width(#[trigger] s[i])
            == 1
}

proof fn lemma_narrow_width(s: Seq<char>)
    requires
        narrow(s),
    ensures
        plain_text(s),
        width_from(s, 0) == s.len(),
    decreases s.len(),
{
    if s.len() > 0 {
        let t = s.subrange(1, s.len() as int);
        assert(narrow(t)) by {
            assert forall|i: int| 0 <= i < t.len() implies t[i] != '\x1b' && t[i] != '\u{fe0f}'
                && spec_char_width(#[trigger] t[i]) == 1 by {
                assert(t[i] == s[i + 1]);
            }
        }
        lemma_narrow_width(t);
        assert(s =~= seq![s[0]] + t);
        crate::prompt::lemma_one_char_width(s[0]);
        lemma_width_concat(seq![s[0]], t);
    }
}

proof fn lemma_glyph_narrow(b: Border, k: int)
    ensures
        glyph(b, k) != '\r',
        glyph(b, k) != '\n',
        glyph(b, k) != '\x1b',
        glyph(b, k) != '\u{fe0f}',
        spec_char_width(glyph(b, k)) == 1,
{
    let c = glyph(b, k);
    assert(0x2500 <= (c as u32) <= 0x257f);
}

proof fn lemma_split_rows_plain(s: Seq<char>)
    requires
        plain_text(s),
    ensures
        forall|i: int| 0 <= i < split_rows(s).len() ==> plain_text(#[trigger] split_rows(s)[i]),
    decreases s.len(),
{
    lemma_split_rows(s);
    if s.len() >= 2 && s[s.len() - 2] == '\r' && s[s.len() - 1] == '\n' {
        let t = s.take(s.len() - 2);
        assert(plain_text(t)) by {
            assert forall|i: int| 0 <= i < t.len() implies t[i] != '\x1b' by {
                assert(t[i] == s[i]);
            }
        }
        lemma_split_rows_plain(t);
        lemma_split_rows(t);
        assert forall|i: int| 0 <= i < split_rows(s).len() implies plain_text(#[trigger] split_rows(s)[i]) by {
            if i < split_rows(t).len() {
                assert(split_rows(s)[i] == split_rows(t)[i]);
            } else {
                assert(split_rows(s)[i] =~= Seq::<char>::empty());
            }
        }
    } else if s.len() > 0 {
        let t = s.drop_last();
        assert(plain_text(t)) by {
            assert forall|i: int| 0 <= i < t.len() implies t[i] != '\x1b' by {
                assert(t[i] == s[i]);
            }
        }
        lemma_split_rows_plain(t);
        lemma_split_rows(t);
        let ps = split_rows(t);
        assert forall|i: int| 0 <= i < split_rows(s).len() implies plain_text(#[trigger] split_rows(s)[i]) by {
            if i < ps.len() - 1 {
                assert(split_rows(s)[i] == ps[i]);
            } else {
                let last = ps.last().push(s.last());
                assert(split_rows(s)[i] == last);
                assert(plain_text(ps[ps.len() - 1]));
                assert forall|k: int| 0 <= k < last.len() implies last[k] != '\x1b' by {
                    if k < last.len() - 1 {
                        assert(last[k] == ps[ps.len() - 1][k]);
                    }
                }
            }
        }
    }
}

proof fn lemma_content_plain(f: Seq<char>)
    requires
        plain_text(f),
    ensures
        forall|i: int| 0 <= i < content_rows(f).len() ==> plain_text(#[trigger] content_rows(f)[i]),
{
    lemma_split_rows_plain(f);
    assert forall|i: int| 0 <= i < spec_rows(f).len() implies plain_text(#[trigger] spec_rows(f)[i]) by {
        let r = split_rows(f)[i];
        lemma_past_returns(r, 0);
        let c = clean_row(r);
        assert(spec_rows(f)[i] == c);
        assert forall|k: int| 0 <= k < c.len() implies c[k] != '\x1b' by {
            let t = r.skip(past_returns(r, 0));
            if t.len() >= 3 && t[0] == '\x1b' && t[1] == '[' && t[2] == 'K' {
                assert(c[k] == r[past_returns(r, 0) + 3 + k]);
            } else {
                assert(c[k] == r[past_returns(r, 0) + k]);
            }
        }
    }
    assert forall|i: int| 0 <= i < content_rows(f).len() implies plain_text(#[trigger] content_rows(f)[i]) by {
        let r = spec_rows(f);
        if leads(f) && r.len() > 0 && r[0].len() == 0 {
            assert(content_rows(f)[i] == r[i + 1]);
        } else {
            assert(content_rows(f)[i] == r[i]);
        }
    }
}

proof fn lemma_widest_ge(rows: Seq<Seq<char>>, i: int)
    requires
        0 <= i < rows.len(),
    ensures
        width_from(rows[i], 0) <= widest(rows),
    decreases rows.len(),
{
    if i < rows.len() - 1 {
        assert(rows.drop_last()[i] == rows[i]);
        lemma_widest_ge(rows.drop_last(), i);
    }
}

proof fn lemma_blank_width(n: nat)
    ensures
        plain_text(blank(n)),
        width_from(blank(n), 0) == n,
{
    assert(narrow(blank(n)));
    lemma_narrow_width(blank(n));
}

proof fn lemma_padded_uniform(c: Chrome, rows: Seq<Seq<char>>, inside: nat)
    requires
        forall|i: int| 0 <= i < rows.len() ==> plain_text(#[trigger] rows[i]) && width_from(rows[i], 0) <= inside,
    ensures
        uniform(spec_padded(c, rows, inside), 2 * c.spec_pad_x() + inside),
{
    let side = c.spec_pad_x();
    let p = spec_padded(c, rows, inside);
    let m = c.spec_pad_y();
    assert forall|i: int| 0 <= i < p.len() implies plain_text(#[trigger] p[i]) && width_from(p[i], 0)
        == 2 * side + inside by {
        if m <= i < m + rows.len() {
            let r = rows[i - m];
            let w = width_from(r, 0);
            let fill = if inside > w {
                (inside - w) as nat
            } else {
                0
            };
            assert(p[i] == pad_row(side, inside, r));
            lemma_blank_width(side);
            lemma_blank_width(fill);
            let a = blank(side) + r;
            let b = a + blank(fill);
            lemma_width_concat(blank(side), r);
            assert(plain_text(a)) by {
                assert forall|k: int| 0 <= k < a.len() implies a[k] != '\x1b' by {
                    if k < side {
                        assert(a[k] == blank(side)[k]);
                    } else {
                        assert(a[k] == r[k - side]);
                    }
                }
            }
            lemma_width_concat(a, blank(fill));
            assert(plain_text(b)) by {
                assert forall|k: int| 0 <= k < b.len() implies b[k] != '\x1b' by {
                    if k < a.len() {
                        assert(b[k] == a[k]);
                    } else {
                        assert(b[k] == blank(fill)[k - a.len()]);
                    }
                }
            }
            lemma_width_concat(b, blank(side));
            assert(plain_text(b + blank(side))) by {
                assert forall|k: int| 0 <= k < (b + blank(side)).len() implies (b + blank(side))[k]
                    != '\x1b' by {
                    if k < b.len() {
                        assert((b + blank(side))[k] == b[k]);
                    } else {
                        assert((b + blank(side))[k] == blank(side)[k - b.len()]);
                    }
                }
            }
        } else {
            assert(p[i] == blank(side + inside + side));
            lemma_blank_width(side + inside + side);
        }
    }
}

proof fn lemma_boxed_uniform(b: Border, rows: Seq<Seq<char>>, w: nat)
    requires
        uniform(rows, w),
    ensures
        uniform(spec_boxed(b, rows, w), w + 2),
{
    let out = spec_boxed(b, rows, w);
    lemma_glyph_narrow(b, 0);
    lemma_glyph_narrow(b, 1);
    lemma_glyph_narrow(b, 2);
    lemma_glyph_narrow(b, 3);
    lemma_glyph_narrow(b, 4);
    lemma_glyph_narrow(b, 5);
    assert forall|i: int| 0 <= i < out.len() implies plain_text(#[trigger] out[i]) && width_from(out[i], 0)
        == w + 2 by {
        if i == 0 {
            let lid = seq![glyph(b, 0)] + run_of(glyph(b, 4), w) + seq![glyph(b, 1)];
            assert(out[i] == lid);
            assert(narrow(lid));
            lemma_narrow_width(lid);
        } else if i == out.len() - 1 {
            let base = seq![glyph(b, 2)] + run_of(glyph(b, 4), w) + seq![glyph(b, 3)];
            assert(out[i] == base);
            assert(narrow(base));
            lemma_narrow_width(base);
        } else {
            let r = rows[i - 1];
            let wall = seq![glyph(b, 5)];
            assert(out[i] == wall + r + wall);
            assert(narrow(wall));
            lemma_narrow_width(wall);
            lemma_width_concat(wall, r);
            let a = wall + r;
            assert(plain_text(a)) by {
                assert forall|k: int| 0 <= k < a.len() implies a[k] != '\x1b' by {
                    if k >= 1 {
                        assert(a[k] == r[k - 1]);
                    }
                }
            }
            lemma_width_concat(a, wall);
            assert(plain_text(a + wall)) by {
                assert forall|k: int| 0 <= k < (a + wall).len() implies (a + wall)[k] != '\x1b' by {
                    if k < a.len() {
                        assert((a + wall)[k] == a[k]);
                    }
                }
            }
        }
    }
}

proof fn lemma_indented_uniform(c: Chrome, rows: Seq<Seq<char>>, cols: nat, w: nat) -> (n: nat)
    requires
        uniform(rows, w),
    ensures
        uniform(spec_indented(c, rows, cols), n + w),
{
    if c.align_x == Place::Start {
        0
    } else {
        let wd = widest(rows);
        let n = spec_offset(
            c.align_x,
            if cols > wd {
                (cols - wd) as nat
            } else {
                0
            },
        );
        let out = spec_indented(c, rows, cols);
        lemma_blank_width(n);
        assert forall|i: int| 0 <= i < out.len() implies plain_text(#[trigger] out[i]) && width_from(
            out[i],
            0,
        ) == n + w by {
            let r = rows[i];
            assert(out[i] == blank(n) + r);
            lemma_width_concat(blank(n), r);
            assert forall|k: int| 0 <= k < (blank(n) + r).len() implies (blank(n) + r)[k] != '\x1b' by {
                if k >= n {
                    assert((blank(n) + r)[k] == r[k - n]);
                }
            }
        }
        n
    }
}

/// A frame of plain text comes out rectangular: every row it is drawn as, the lid and base of a
/// box, the rule and the legend included, is the same number of cells wide.
pub proof fn law_a_plain_frame_is_rectangular(
    c: Chrome,
    f: Seq<char>,
    keys: Seq<(&str, &str)>,
    cols: nat,
)
    requires
        plain_text(f),
        plain_text(spec_legend(keys)),
    ensures
        ({
            let d = spec_drawn(c, f, keys, cols);
            forall|i: int, j: int|
                0 <= i < d.len() && 0 <= j < d.len() ==> width_from(#[trigger] d[i], 0) == width_from(
                    #[trigger] d[j],
                    0,
                )
        }),
{
    let rows = with_legend(c, content_rows(f), keys);
    let inside = spec_inside(c, rows, cols);
    lemma_content_plain(f);
    lemma_blank_width(0);
    assert forall|i: int| 0 <= i < rows.len() implies plain_text(#[trigger] rows[i]) by {
        let m = content_rows(f).len();
        if i < m {
            assert(rows[i] == content_rows(f)[i]);
        } else if i == rows.len() - 1 && has_legend(c, keys) {
            assert(rows[i] == spec_legend(keys));
        } else {
            assert(rows[i] == blank(0));
        }
    }
    let r = ruled(c, rows, keys, inside);
    assert forall|i: int| 0 <= i < r.len() implies plain_text(#[trigger] r[i]) && width_from(r[i], 0)
        <= inside by {
        if has_legend(c, keys) && i == r.len() - 2 {
            assert(r[i] == spec_rule(inside));
            assert(narrow(spec_rule(inside)));
            lemma_narrow_width(spec_rule(inside));
        } else {
            assert(r[i] == rows[i]);
            lemma_widest_ge(rows, i);
        }
    }
    let w = 2 * c.spec_pad_x() + inside;
    lemma_padded_uniform(c, r, inside);
    let padded = spec_padded(c, r, inside);
    let n = if c.border == Border::Off {
        lemma_indented_uniform(c, padded, cols, w)
    } else {
        lemma_boxed_uniform(c.border, padded, w);
        lemma_indented_uniform(c, spec_boxed(c.border, padded, inside + 2 * c.spec_pad_x()), cols, w + 2)
    };
}


/// Text with no line feed in it.
pub open spec fn no_feed(s: Seq<char>) -> bool {
    forall|i: int| 0 <= i < s.len() ==> s[i] != '\n'
}

proof fn lemma_no_feed_concat(a: Seq<char>, b: Seq<char>)
    requires
        no_feed(a),
        no_feed(b),
    ensures
        no_feed(a + b),
{
    assert forall|i: int| 0 <= i < (a + b).len() implies (a + b)[i] != '\n' by {
        if i < a.len() {
            assert((a + b)[i] == a[i]);
        } else {
            assert((a + b)[i] == b[i - a.len()]);
        }
    }
}

/// Whether `s` holds a carriage return at `i` and a line feed just after it.
pub open spec fn crlf_at(s: Seq<char>, i: int) -> bool {
    s[i] == '\r' && s[i + 1] == '\n'
}

/// Text in which no `\r\n` occurs, so that it stays one row when a frame is cut into rows.
pub open spec fn no_crlf(s: Seq<char>) -> bool {
    forall|i: int| 0 <= i < s.len() - 1 ==> !#[trigger] crlf_at(s, i)
}

/// Whether `a` ends with a carriage return and `b` begins with a line feed, so that putting them
/// together makes a `\r\n` that neither holds.
pub open spec fn joins_crlf(a: Seq<char>, b: Seq<char>) -> bool {
    a.len() > 0 && b.len() > 0 && a.last() == '\r' && b[0] == '\n'
}

proof fn lemma_no_feed_no_crlf(s: Seq<char>)
    requires
        no_feed(s),
    ensures
        no_crlf(s),
{
    assert forall|i: int| 0 <= i < s.len() - 1 implies !#[trigger] crlf_at(s, i) by {
        assert(s[i + 1] != '\n');
    }
}

proof fn lemma_no_crlf_concat(a: Seq<char>, b: Seq<char>)
    requires
        no_crlf(a),
        no_crlf(b),
        !joins_crlf(a, b),
    ensures
        no_crlf(a + b),
{
    let s = a + b;
    assert forall|i: int| 0 <= i < s.len() - 1 implies !#[trigger] crlf_at(s, i) by {
        if i + 1 < a.len() {
            assert(s[i] == a[i] && s[i + 1] == a[i + 1]);
            assert(!crlf_at(a, i));
        } else if i >= a.len() {
            let j = i - a.len();
            assert(s[i] == b[j] && s[i + 1] == b[j + 1]);
            assert(!crlf_at(b, j));
        } else {
            assert(s[i] == a.last() && s[i + 1] == b[0]);
        }
    }
}

proof fn lemma_no_crlf_skip(r: Seq<char>, k: int)
    requires
        no_crlf(r),
        0 <= k <= r.len(),
    ensures
        no_crlf(r.skip(k)),
{
    let t = r.skip(k);
    assert forall|i: int| 0 <= i < t.len() - 1 implies !#[trigger] crlf_at(t, i) by {
        assert(t[i] == r[i + k] && t[i + 1] == r[i + k + 1]);
        assert(!crlf_at(r, i + k));
    }
}

/// Cutting at every `\r\n` leaves none inside a piece, and the last piece is how the text
/// ends.
proof fn lemma_split_pieces(s: Seq<char>)
    ensures
        forall|i: int| 0 <= i < split_rows(s).len() ==> no_crlf(#[trigger] split_rows(s)[i]),
        split_rows(s).last().len() <= s.len(),
        split_rows(s).last() == s.subrange(s.len() - split_rows(s).last().len(), s.len() as int),
    decreases s.len(),
{
    lemma_split_rows(s);
    if s.len() == 0 {
        assert(split_rows(s)[0] =~= Seq::<char>::empty());
        assert(s.subrange(0, 0) =~= Seq::<char>::empty());
    } else if s.len() >= 2 && s[s.len() - 2] == '\r' && s[s.len() - 1] == '\n' {
        let t = s.take(s.len() - 2);
        lemma_split_pieces(t);
        let ps = split_rows(t).push(seq![]);
        assert forall|i: int| 0 <= i < ps.len() implies no_crlf(#[trigger] ps[i]) by {
            if i < split_rows(t).len() {
                assert(ps[i] == split_rows(t)[i]);
            } else {
                assert(ps[i] =~= Seq::<char>::empty());
            }
        }
        assert(s.subrange(s.len() as int, s.len() as int) =~= Seq::<char>::empty());
    } else {
        let d = s.drop_last();
        lemma_split_pieces(d);
        lemma_split_rows(d);
        let ps = split_rows(d);
        let last = ps.last();
        let x = s.last();
        assert(no_crlf(last));
        assert(no_crlf(seq![x]));
        assert(!joins_crlf(last, seq![x])) by {
            if last.len() > 0 {
                assert(last.last() == d[d.len() - 1]);
                assert(d[d.len() - 1] == s[s.len() - 2]);
            }
        }
        lemma_no_crlf_concat(last, seq![x]);
        assert(last.push(x) =~= last + seq![x]);
        let qs = ps.update(ps.len() - 1, last.push(x));
        assert forall|i: int| 0 <= i < qs.len() implies no_crlf(#[trigger] qs[i]) by {
            if i < ps.len() - 1 {
                assert(qs[i] == ps[i]);
            }
        }
        assert(last.push(x) =~= s.subrange(s.len() - (last.len() + 1), s.len() as int));
    }
}

/// No row of a frame holds a `\r\n`: the frame was cut at every one.
proof fn lemma_content_rows_no_crlf(f: Seq<char>)
    ensures
        forall|i: int| 0 <= i < content_rows(f).len() ==> no_crlf(#[trigger] content_rows(f)[i]),
{
    lemma_split_pieces(f);
    let ps = split_rows(f);
    assert forall|i: int| 0 <= i < spec_rows(f).len() implies no_crlf(#[trigger] spec_rows(f)[i]) by {
        let r = ps[i];
        assert(no_crlf(r));
        lemma_past_returns(r, 0);
        let k = past_returns(r, 0);
        lemma_no_crlf_skip(r, k);
        let t = r.skip(k);
        if t.len() >= 3 && t[0] == '\x1b' && t[1] == '[' && t[2] == 'K' {
            lemma_no_crlf_skip(t, 3);
        }
        assert(spec_rows(f)[i] == clean_row(r));
    }
    let r = spec_rows(f);
    if leads(f) && r.len() > 0 && r[0].len() == 0 {
        assert forall|i: int| 0 <= i < content_rows(f).len() implies no_crlf(#[trigger] content_rows(f)[i]) by {
            assert(content_rows(f)[i] == r[i + 1]);
        }
    }
}

/// Text with no line feed in it, put after a frame, only lengthens the frame's last row.
proof fn lemma_split_append(p: Seq<char>, b: Seq<char>)
    requires
        no_crlf(b),
        !joins_crlf(p, b),
    ensures
        split_rows(p + b) == split_rows(p).update(
            split_rows(p).len() - 1,
            split_rows(p).last() + b,
        ),
    decreases b.len(),
{
    lemma_split_rows(p);
    if b.len() == 0 {
        assert(p + b =~= p);
        assert(split_rows(p).last() + b =~= split_rows(p).last());
        assert(split_rows(p).update(split_rows(p).len() - 1, split_rows(p).last() + b) =~= split_rows(p));
    } else {
        let c = b.drop_last();
        assert(no_crlf(c)) by {
            assert forall|i: int| 0 <= i < c.len() - 1 implies !#[trigger] crlf_at(c, i) by {
                assert(c[i] == b[i] && c[i + 1] == b[i + 1]);
                assert(!crlf_at(b, i));
            }
        }
        assert(c.len() > 0 ==> c[0] == b[0]);
        lemma_split_append(p, c);
        let s = p + b;
        if b.len() >= 2 {
            assert(!crlf_at(b, b.len() - 2));
            assert(s[s.len() - 2] == b[b.len() - 2]);
        } else if p.len() > 0 {
            assert(s[s.len() - 2] == p.last());
        }
        assert(s.drop_last() =~= p + c);
        assert(s[s.len() - 1] == b[b.len() - 1]);
        lemma_split_rows(p + c);
        let ps = split_rows(p + c);
        assert(ps.last().push(s.last()) =~= split_rows(p).last() + b);
        assert(split_rows(s) =~= split_rows(p).update(split_rows(p).len() - 1, split_rows(p).last() + b));
    }
}

/// Rows written out after `p`, which ends a row, come back as those rows with their erases.
proof fn lemma_split_joined(p: Seq<char>, rows: Seq<Seq<char>>)
    requires
        rows.len() >= 1,
        split_rows(p).last() == Seq::<char>::empty(),
        forall|i: int| 0 <= i < rows.len() ==> no_crlf(#[trigger] rows[i]),
    ensures
        split_rows(p + joined_rows(rows)) == split_rows(p).drop_last() + rows.map_values(
            |r: Seq<char>| erase() + r,
        ),
    decreases rows.len(),
{
    lemma_split_rows(p);
    let last = rows[rows.len() - 1];
    assert(no_feed(erase()));
    lemma_no_feed_no_crlf(erase());
    lemma_no_crlf_concat(erase(), last);
    assert((erase() + last)[0] == '\r');
    if rows.len() == 1 {
        assert(joined_rows(rows) == erase() + rows[0]);
        lemma_split_append(p, erase() + last);
        assert(split_rows(p).last() + (erase() + last) =~= erase() + last);
        assert(split_rows(p + joined_rows(rows)) =~= split_rows(p).drop_last() + rows.map_values(
            |r: Seq<char>| erase() + r,
        ));
    } else {
        let front = rows.drop_last();
        assert forall|i: int| 0 <= i < front.len() implies no_crlf(#[trigger] front[i]) by {
            assert(front[i] == rows[i]);
        }
        lemma_split_joined(p, front);
        let q = p + joined_rows(front);
        let qs = q + seq!['\r', '\n'];
        assert(qs.take(qs.len() - 2) =~= q);
        assert(split_rows(qs) == split_rows(q).push(seq![]));
        lemma_split_append(qs, erase() + last);
        lemma_split_rows(qs);
        assert(p + joined_rows(rows) =~= qs + (erase() + last));
        assert(split_rows(p + joined_rows(rows)) =~= split_rows(p).drop_last() + rows.map_values(
            |r: Seq<char>| erase() + r,
        ));
    }
}

proof fn lemma_clean_erased(r: Seq<char>)
    ensures
        clean_row(erase() + r) == r,
        clean_row(Seq::<char>::empty()) == Seq::<char>::empty(),
{
    let e = erase() + r;
    assert(e[0] == '\r' && e[1] == '\x1b' && e[2] == '[' && e[3] == 'K');
    assert(past_returns(e, 1) == 1);
    assert(past_returns(e, 0) == 1);
    assert(e.skip(1).skip(3) =~= r);
    assert(past_returns(Seq::<char>::empty(), 0) == 0);
    assert(Seq::<char>::empty().skip(0) =~= Seq::<char>::empty());
}

/// No drawn row holds a `\r\n` when the legend does not: the frame's own rows never do, and
/// the padding, walls and indent put around them hold neither character. A frame with rows is
/// drawn with at least as many.
proof fn lemma_drawn_rows_have_no_crlf(c: Chrome, f: Seq<char>, keys: Seq<(&str, &str)>, cols: nat)
    requires
        no_crlf(spec_legend(keys)),
    ensures
        forall|i: int| 0 <= i < spec_drawn(c, f, keys, cols).len() ==> no_crlf(
            #[trigger] spec_drawn(c, f, keys, cols)[i],
        ),
        spec_drawn(c, f, keys, cols).len() >= content_rows(f).len(),
{
    lemma_content_rows_no_crlf(f);
    let rows = with_legend(c, content_rows(f), keys);
    let inside = spec_inside(c, rows, cols);
    let r = ruled(c, rows, keys, inside);
    assert(no_feed(blank(0)));
    lemma_no_feed_no_crlf(blank(0));
    assert forall|i: int| 0 <= i < r.len() implies no_crlf(#[trigger] r[i]) by {
        let m = content_rows(f).len();
        if has_legend(c, keys) && i == r.len() - 2 {
            assert(r[i] == spec_rule(inside));
            assert(no_feed(spec_rule(inside)));
            lemma_no_feed_no_crlf(spec_rule(inside));
        } else if i < m {
            assert(r[i] == rows[i] && rows[i] == content_rows(f)[i]);
        } else if has_legend(c, keys) && i == r.len() - 1 {
            assert(r[i] == spec_legend(keys));
        } else {
            assert(r[i] == blank(0));
        }
    }
    let side = c.spec_pad_x();
    let padded = spec_padded(c, r, inside);
    assert forall|i: int| 0 <= i < padded.len() implies no_crlf(#[trigger] padded[i]) by {
        let m = c.spec_pad_y();
        if m <= i < m + r.len() {
            let row = r[i - m];
            let w = width_from(row, 0);
            let fill: nat = if inside > w {
                (inside - w) as nat
            } else {
                0
            };
            assert(padded[i] == pad_row(side, inside, row));
            assert(no_feed(blank(side)));
            assert(no_feed(blank(fill)));
            lemma_no_feed_no_crlf(blank(side));
            lemma_no_feed_no_crlf(blank(fill));
            lemma_no_crlf_concat(blank(side), row);
            lemma_no_crlf_concat(blank(side) + row, blank(fill));
            lemma_no_crlf_concat(blank(side) + row + blank(fill), blank(side));
        } else {
            assert(padded[i] == blank(side + inside + side));
            assert(no_feed(blank(side + inside + side)));
            lemma_no_feed_no_crlf(blank(side + inside + side));
        }
    }
    let boxed = if c.border == Border::Off {
        padded
    } else {
        spec_boxed(c.border, padded, inside + 2 * side)
    };
    assert forall|i: int| 0 <= i < boxed.len() implies no_crlf(#[trigger] boxed[i]) by {
        if c.border != Border::Off {
            let b = c.border;
            let w = (inside + 2 * side) as nat;
            lemma_glyph_narrow(b, 0);
            lemma_glyph_narrow(b, 1);
            lemma_glyph_narrow(b, 2);
            lemma_glyph_narrow(b, 3);
            lemma_glyph_narrow(b, 4);
            lemma_glyph_narrow(b, 5);
            assert(no_feed(run_of(glyph(b, 4), w)));
            if i == 0 {
                let lid = seq![glyph(b, 0)] + run_of(glyph(b, 4), w) + seq![glyph(b, 1)];
                assert(boxed[i] == lid);
                lemma_no_feed_concat(seq![glyph(b, 0)], run_of(glyph(b, 4), w));
                lemma_no_feed_concat(seq![glyph(b, 0)] + run_of(glyph(b, 4), w), seq![glyph(b, 1)]);
                lemma_no_feed_no_crlf(lid);
            } else if i == boxed.len() - 1 {
                let base = seq![glyph(b, 2)] + run_of(glyph(b, 4), w) + seq![glyph(b, 3)];
                assert(boxed[i] == base);
                lemma_no_feed_concat(seq![glyph(b, 2)], run_of(glyph(b, 4), w));
                lemma_no_feed_concat(seq![glyph(b, 2)] + run_of(glyph(b, 4), w), seq![glyph(b, 3)]);
                lemma_no_feed_no_crlf(base);
            } else {
                let row = padded[i - 1];
                let wall = seq![glyph(b, 5)];
                assert(boxed[i] == wall + row + wall);
                assert(no_feed(wall));
                lemma_no_feed_no_crlf(wall);
                lemma_no_crlf_concat(wall, row);
                lemma_no_crlf_concat(wall + row, wall);
            }
        }
    }
    let d = spec_indented(c, boxed, cols);
    assert forall|i: int| 0 <= i < d.len() implies no_crlf(#[trigger] d[i]) by {
        if c.align_x != Place::Start {
            let wd = widest(boxed);
            let n = spec_offset(c.align_x, if cols > wd { (cols - wd) as nat } else { 0 });
            assert(d[i] == blank(n) + boxed[i]);
            assert(no_feed(blank(n)));
            lemma_no_feed_no_crlf(blank(n));
            lemma_no_crlf_concat(blank(n), boxed[i]);
        }
    }
}

/// The rows a widget reads back from what `wrap` wrote are the rows drawn, after the caller's own
/// row when the frame began on it; so a widget that sizes itself against `rows_of` of the wrapped
/// frame reserves the frame's rows and `extra_rows` more, whenever the legend is off or has keys.
/// This holds for every frame with a row: its rows hold no `\r\n`, having been cut at each one.
/// The legend's text must hold none either, or it is read back as more than one row.
pub proof fn law_the_wrapped_rows_are_the_drawn_ones(
    c: Chrome,
    f: Seq<char>,
    keys: Seq<(&str, &str)>,
    cols: nat,
)
    requires
        content_rows(f).len() >= 1,
        no_crlf(spec_legend(keys)),
    ensures
        spec_rows(spec_wrap(c, f, keys, cols)) == (if leads(f) {
            seq![Seq::<char>::empty()]
        } else {
            Seq::<Seq<char>>::empty()
        }) + spec_drawn(c, f, keys, cols),
        !c.legend || keys.len() > 0 ==> spec_rows(spec_wrap(c, f, keys, cols)).len() == (if leads(f) {
            1int
        } else {
            0int
        }) + content_rows(f).len() + c.spec_extra_rows(),
{
    let d = spec_drawn(c, f, keys, cols);
    lemma_drawn_rows_have_no_crlf(c, f, keys, cols);
    let p: Seq<char> = if leads(f) {
        seq!['\r', '\n']
    } else {
        Seq::<char>::empty()
    };
    assert(spec_wrap(c, f, keys, cols) =~= p + joined_rows(d));
    if leads(f) {
        assert(p.take(0) =~= Seq::<char>::empty());
        assert(split_rows(p) == split_rows(Seq::<char>::empty()).push(seq![]));
    }
    lemma_split_joined(p, d);
    let pieces = split_rows(p + joined_rows(d));
    let want = (if leads(f) {
        seq![Seq::<char>::empty()]
    } else {
        Seq::<Seq<char>>::empty()
    }) + d;
    assert(split_rows(p).drop_last() =~= if leads(f) {
        seq![Seq::<char>::empty()]
    } else {
        Seq::<Seq<char>>::empty()
    });
    assert forall|i: int| 0 <= i < want.len() implies spec_rows(spec_wrap(c, f, keys, cols))[i] == want[i] by {
        if leads(f) && i == 0 {
            lemma_clean_erased(Seq::<char>::empty());
        } else {
            let k = if leads(f) { i - 1 } else { i };
            lemma_clean_erased(d[k]);
        }
    }
    assert(spec_rows(spec_wrap(c, f, keys, cols)) =~= want);
    if !c.legend || keys.len() > 0 {
        law_the_reserved_rows_are_the_drawn_ones(c, f, keys, cols);
    }
}

/// A frame of `n` rows, each written after its erase and the rows joined by `\r\n`, as every
/// widget builds one: read back, it is exactly those rows; and wrapped in any chrome, with the
/// legend off or given keys, it is read back as its `n` rows and `extra_rows` more. A row or a
/// legend holding a `\r\n` of its own would be read back as two.
pub proof fn law_a_frame_of_rows_reserves_them_and_the_extra(
    c: Chrome,
    rows: Seq<Seq<char>>,
    keys: Seq<(&str, &str)>,
    cols: nat,
)
    requires
        rows.len() >= 1,
        forall|i: int| 0 <= i < rows.len() ==> no_crlf(#[trigger] rows[i]),
        no_crlf(spec_legend(keys)),
        !c.legend || keys.len() > 0,
    ensures
        content_rows(joined_rows(rows)) == rows,
        spec_rows(spec_wrap(c, joined_rows(rows), keys, cols)).len() == rows.len() + c.spec_extra_rows(),
{
    let f = joined_rows(rows);
    let e = Seq::<char>::empty();
    assert(split_rows(e) == seq![e]);
    assert(e + f =~= f);
    lemma_split_joined(e, rows);
    assert(split_rows(e).drop_last() =~= Seq::<Seq<char>>::empty());
    let pieces = rows.map_values(|r: Seq<char>| erase() + r);
    assert(split_rows(f) =~= pieces);
    assert forall|i: int| 0 <= i < rows.len() implies spec_rows(f)[i] == rows[i] by {
        lemma_clean_erased(rows[i]);
        assert(split_rows(f)[i] == erase() + rows[i]);
    }
    assert(spec_rows(f) =~= rows);
    assert(!leads(f)) by {
        lemma_joined_starts_with_erase(rows);
    }
    assert(content_rows(f) == rows);
    law_the_wrapped_rows_are_the_drawn_ones(c, f, keys, cols);
}

proof fn lemma_joined_starts_with_erase(rows: Seq<Seq<char>>)
    requires
        rows.len() >= 1,
    ensures
        joined_rows(rows).len() >= 4,
        joined_rows(rows)[1] == '\x1b',
    decreases rows.len(),
{
    if rows.len() > 1 {
        lemma_joined_starts_with_erase(rows.drop_last());
        let front = joined_rows(rows.drop_last());
        assert(joined_rows(rows) == front + seq!['\r', '\n'] + erase() + rows.last());
        assert(joined_rows(rows)[1] == front[1]);
    } else {
        assert(joined_rows(rows) == erase() + rows[0]);
    }
}

} // verus!
