//! A headline and a rail of labelled rows: the shape every report the shell prints already has.
//!
//! ```text
//! direnv ~/data/code/tools/rush
//!   │ changed  PATH
//!   │ aliases  _b _c _r _t _v
//! ```
//!
//! A row that does not fit has to do something, and which something depends on what the row is:
//! cut it and count what was dropped, cut it and end with `…`, or wrap it onto more rows that
//! keep the rail. `Block::lines` gives the rows back; nothing here writes to a terminal.

use vstd::prelude::*;
use crate::dropdown::FALLBACK_COLS;
use crate::dropdown::width::{spec_display_width, width_of, lemma_width_bound};
use crate::text::{self, decimal, fits, spec_is_whitespace};

verus! {

// ------------------------------------------------------------------ words

/// `s` split at whitespace, as `str::split_whitespace` splits it, and whether its last character
/// was part of a word.
pub open spec fn word_scan(s: Seq<char>) -> (Seq<Seq<char>>, bool)
    decreases s.len(),
{
    if s.len() == 0 {
        (seq![], false)
    } else {
        let (ws, in_word) = word_scan(s.drop_last());
        let c = s.last();
        if spec_is_whitespace(c) {
            (ws, false)
        } else if in_word && ws.len() > 0 {
            (ws.update(ws.len() - 1, ws.last().push(c)), true)
        } else {
            (ws.push(seq![c]), true)
        }
    }
}

/// The whitespace-separated words of `s`.
pub open spec fn words(s: Seq<char>) -> Seq<Seq<char>> {
    word_scan(s).0
}

/// Every word is a nonempty piece of the text, no longer than it.
pub proof fn lemma_words_bounded(s: Seq<char>)
    ensures
        word_scan(s).0.len() <= s.len(),
        forall|i: int| 0 <= i < word_scan(s).0.len() ==> 0 < (#[trigger] word_scan(s).0[i]).len() <= s.len(),
    decreases s.len(),
{
    if s.len() > 0 {
        lemma_words_bounded(s.drop_last());
    }
}

fn words_of(s: &[char]) -> (r: Vec<Vec<char>>)
    ensures
        r@.len() == words(s@).len(),
        forall|i: int| 0 <= i < r@.len() ==> (#[trigger] r@[i])@ == words(s@)[i],
{
    let mut out: Vec<Vec<char>> = Vec::new();
    let mut in_word = false;
    let mut i: usize = 0;
    while i < s.len()
        invariant
            i <= s@.len(),
            out@.len() == word_scan(s@.subrange(0, i as int)).0.len(),
            forall|k: int| 0 <= k < out@.len() ==> (#[trigger] out@[k])@ == word_scan(s@.subrange(0, i as int)).0[k],
            in_word == word_scan(s@.subrange(0, i as int)).1,
        decreases s.len() - i,
    {
        let c = s[i];
        let ghost before = out@;
        proof {
            assert(s@.subrange(0, i + 1).drop_last() =~= s@.subrange(0, i as int));
        }
        if text::is_whitespace(c) {
            in_word = false;
        } else if in_word && out.len() > 0 {
            let n = out.len();
            let mut last = out.remove(n - 1);
            last.push(c);
            out.push(last);
            proof {
                assert forall|k: int| 0 <= k < out@.len() implies (#[trigger] out@[k])@ == word_scan(s@.subrange(0, i + 1)).0[k] by {
                    if k < n - 1 {
                        assert(out@[k] == before[k]);
                    }
                }
            }
            in_word = true;
        } else {
            let mut w = Vec::new();
            w.push(c);
            out.push(w);
            proof {
                assert(w@ =~= seq![c]);
                assert forall|k: int| 0 <= k < out@.len() implies (#[trigger] out@[k])@ == word_scan(s@.subrange(0, i + 1)).0[k] by {
                    if k < before.len() {
                        assert(out@[k] == before[k]);
                    }
                }
            }
            in_word = true;
        }
        i += 1;
    }
    assert(s@.subrange(0, s@.len() as int) =~= s@);
    out
}

// ------------------------------------------------------------------ counting what fits

/// How many of `items`, from the `i`th on, fit in `budget` cells with `used` already spent: each
/// takes its width and a space before it, and the first always goes in.
pub open spec fn fit_count(items: Seq<Seq<char>>, i: nat, used: nat, budget: nat) -> nat
    decreases items.len() - i,
{
    if i >= items.len() {
        i
    } else {
        let w = spec_display_width(items[i as int]) + (if i > 0 { 1nat } else { 0nat });
        if used + w > budget && i > 0 {
            i
        } else {
            fit_count(items, i + 1, used + w, budget)
        }
    }
}

/// `ps` joined by single spaces.
pub open spec fn joined(ps: Seq<Seq<char>>) -> Seq<char> {
    text::join_with(ps, ' ')
}

/// As many whitespace-separated items of `text` as fit in `budget` cells, joined by single
/// spaces, and how many did not fit. At least one item always goes in, however narrow the room.
pub open spec fn spec_fit_items(text: Seq<char>, budget: nat) -> (Seq<char>, nat) {
    let items = words(text);
    let k = fit_count(items, 0, 0, budget);
    (joined(items.take(k as int)), (items.len() - k) as nat)
}

proof fn lemma_fit_count_bound(items: Seq<Seq<char>>, i: nat, used: nat, budget: nat)
    requires
        i <= items.len(),
    ensures
        i <= fit_count(items, i, used, budget) <= items.len(),
    decreases items.len() - i,
{
    if i < items.len() {
        let w = spec_display_width(items[i as int]) + (if i > 0 { 1nat } else { 0nat });
        if !(used + w > budget && i > 0) {
            lemma_fit_count_bound(items, i + 1, used + w, budget);
        }
    }
}

pub fn fit_items(text: &[char], budget: usize) -> (r: (Vec<char>, usize))
    requires
        fits(text@),
    ensures
        r.0@ == spec_fit_items(text@, budget as nat).0,
        r.1 == spec_fit_items(text@, budget as nat).1,
{
    let items = words_of(text);
    let ghost spec_items = words(text@);
    proof {
        lemma_words_bounded(text@);
        lemma_fit_count_bound(spec_items, 0, 0, budget as nat);
    }
    let ghost total = fit_count(spec_items, 0, 0, budget as nat);
    let mut out: Vec<char> = Vec::new();
    let mut used: usize = 0;
    let mut i: usize = 0;
    let mut stop = false;
    assert(spec_items.take(0) =~= Seq::<Seq<char>>::empty());
    while i < items.len() && !stop
        invariant
            stop ==> total == i,
            i == 0 ==> used == 0,
            i <= items@.len(),
            items@.len() == spec_items.len(),
            forall|k: int| 0 <= k < items@.len() ==> (#[trigger] items@[k])@ == spec_items[k],
            spec_items == words(text@),
            fits(text@),
            forall|k: int| 0 <= k < spec_items.len() ==> 0 < (#[trigger] spec_items[k]).len() <= text@.len(),
            total == fit_count(spec_items, i as nat, used as nat, budget as nat),
            i > 0 ==> out@ == joined(spec_items.take(i as int)),
            i == 0 ==> out@.len() == 0,
            used <= budget || i <= 1,
            used <= budget + 2 * text@.len(),
        decreases items.len() - i + (if stop { 0int } else { 1int }),
    {
        let item = &items[i];
        proof {
            lemma_width_bound(item@);
        }
        let iw = width_of(item.as_slice());
        let w = iw + if i > 0 {
            1
        } else {
            0
        };
        let over = if used > budget {
            true
        } else {
            w > budget - used
        };
        if over && i > 0 {
            stop = true;
        } else {
        let ghost before = out@;
        if i > 0 {
            out.push(' ');
        }
        let mut k: usize = 0;
        let ghost mid = out@;
        while k < item.len()
            invariant
                k <= item@.len(),
                out@ == mid + item@.subrange(0, k as int),
            decreases item.len() - k,
        {
            out.push(item[k]);
            k += 1;
            assert(out@ =~= mid + item@.subrange(0, k as int));
        }
        proof {
            assert(item@.subrange(0, item@.len() as int) =~= item@);
            let t = spec_items.take(i + 1);
            if i > 0 {
                assert(t.drop_last() =~= spec_items.take(i as int));
                assert(out@ =~= joined(t.drop_last()) + seq![' '] + t.last());
            } else {
                assert(out@ =~= t[0]);
            }
        }
        used = used + w;
        i += 1;
        }
    }
    proof {
        lemma_fit_count_bound(spec_items, i as nat, used as nat, budget as nat);
    }
    assert(total == i);
    if i == 0 {
        assert(joined(spec_items.take(0)) =~= Seq::<char>::empty());
    }
    (out, items.len() - i)
}

// ------------------------------------------------------------------ cutting to fit

/// How many characters of `cs`, from the `i`th on, fit in `room` cells with `used` spent.
pub open spec fn cut_count(cs: Seq<char>, i: nat, used: nat, room: nat) -> nat
    decreases cs.len() - i,
{
    if i >= cs.len() {
        i
    } else {
        let w = spec_display_width(seq![cs[i as int]]);
        if used + w > room {
            i
        } else {
            cut_count(cs, i + 1, used + w, room)
        }
    }
}

/// `text` cut to `budget` cells, and whether anything was cut; one cell is kept back for the `…`
/// when there is something to cut.
pub open spec fn spec_cut_to(text: Seq<char>, budget: nat) -> (Seq<char>, bool) {
    if spec_display_width(text) <= budget {
        (text, false)
    } else {
        let room: nat = if budget >= 1 { (budget - 1) as nat } else { 0 };
        (text.take(cut_count(text, 0, 0, room) as int), true)
    }
}

/// The width of one character on its own.
fn char_cells(c: char) -> (w: usize)
    ensures
        w == spec_display_width(seq![c]),
        w <= 2,
{
    let mut v = Vec::new();
    v.push(c);
    assert(v@ =~= seq![c]);
    proof {
        lemma_width_bound(v@);
    }
    width_of(v.as_slice())
}

pub fn cut_to(text: &[char], budget: usize) -> (r: (Vec<char>, bool))
    requires
        fits(text@),
    ensures
        r.0@ == spec_cut_to(text@, budget as nat).0,
        r.1 == spec_cut_to(text@, budget as nat).1,
{
    if width_of(text) <= budget {
        return (text::slice_vec(text, 0, text.len()), false);
    }
    let room: usize = if budget >= 1 {
        budget - 1
    } else {
        0
    };
    let mut used: usize = 0;
    let mut i: usize = 0;
    let mut stop = false;
    while i < text.len() && !stop
        invariant
            i <= text@.len(),
            used <= room,
            cut_count(text@, i as nat, used as nat, room as nat) == cut_count(text@, 0, 0, room as nat),
            stop ==> cut_count(text@, i as nat, used as nat, room as nat) == i,
        decreases text.len() - i + (if stop { 0int } else { 1int }),
    {
        let w = char_cells(text[i]);
        if w > room - used {
            stop = true;
        } else {
            used = used + w;
            i += 1;
        }
    }
    let cut = text::slice_vec(text, 0, i);
    assert(cut@ =~= text@.take(i as int));
    (cut, true)
}

// ------------------------------------------------------------------ wrapping

/// The pieces a hard break has made, the piece being filled, and its cells.
pub type Pieces = (Seq<Seq<char>>, Seq<char>, nat);

/// One more character through a hard break: a piece that would overflow is closed first, unless
/// it is empty.
pub open spec fn break_step(st: Pieces, c: char, budget: nat) -> Pieces {
    let w = spec_display_width(seq![c]);
    let st1: Pieces = if st.2 + w > budget && st.2 > 0 { (st.0.push(st.1), seq![], 0) } else { st };
    (st1.0, st1.1.push(c), st1.2 + w)
}

pub open spec fn break_scan(cs: Seq<char>, budget: nat) -> Pieces
    decreases cs.len(),
{
    if cs.len() == 0 {
        (seq![], seq![], 0)
    } else {
        break_step(break_scan(cs.drop_last(), budget), cs.last(), budget)
    }
}

/// A word broken into pieces of at most `budget` cells (a piece of one wide character may be
/// wider), for a word too long to wrap at whitespace.
pub open spec fn spec_hard_break(word: Seq<char>, budget: nat) -> Seq<Seq<char>> {
    let st = break_scan(word, budget);
    if st.1.len() > 0 { st.0.push(st.1) } else { st.0 }
}

proof fn lemma_break_used(cs: Seq<char>, budget: nat)
    ensures
        break_scan(cs, budget).2 <= (if budget >= 2 { budget } else { 2 }),
        break_scan(cs, budget).1.len() <= cs.len(),
        break_scan(cs, budget).0.len() <= cs.len(),
        forall|i: int| 0 <= i < break_scan(cs, budget).0.len() ==> (#[trigger] break_scan(cs, budget).0[i]).len() <= cs.len(),
    decreases cs.len(),
{
    if cs.len() > 0 {
        lemma_break_used(cs.drop_last(), budget);
        lemma_width_bound(seq![cs.last()]);
    }
}

fn hard_break(word: &[char], budget: usize) -> (r: Vec<Vec<char>>)
    requires
        fits(word@),
    ensures
        r@.len() == spec_hard_break(word@, budget as nat).len(),
        forall|i: int| 0 <= i < r@.len() ==> (#[trigger] r@[i])@ == spec_hard_break(word@, budget as nat)[i],
{
    let mut pieces: Vec<Vec<char>> = Vec::new();
    let mut piece: Vec<char> = Vec::new();
    let mut used: usize = 0;
    let mut i: usize = 0;
    while i < word.len()
        invariant
            i <= word@.len(),
            ({
                let st = break_scan(word@.subrange(0, i as int), budget as nat);
                &&& pieces@.len() == st.0.len()
                &&& forall|k: int| 0 <= k < pieces@.len() ==> (#[trigger] pieces@[k])@ == st.0[k]
                &&& piece@ == st.1
                &&& used == st.2
            }),
            used <= (if budget >= 2 { budget } else { 2 }),
        decreases word.len() - i,
    {
        let c = word[i];
        let w = char_cells(c);
        let ghost before = pieces@;
        proof {
            assert(word@.subrange(0, i + 1).drop_last() =~= word@.subrange(0, i as int));
        }
        let over = used > 0 && (used > budget || w > budget - used);
        if over {
            let mut done = Vec::new();
            std::mem::swap(&mut done, &mut piece);
            pieces.push(done);
            used = 0;
            proof {
                assert forall|k: int| 0 <= k < pieces@.len() implies (#[trigger] pieces@[k])@ == break_scan(word@.subrange(0, i + 1), budget as nat).0[k] by {
                    if k < before.len() {
                        assert(pieces@[k] == before[k]);
                    }
                }
            }
        }
        piece.push(c);
        used = used + w;
        i += 1;
    }
    assert(word@.subrange(0, word@.len() as int) =~= word@);
    if piece.len() > 0 {
        let ghost before = pieces@;
        pieces.push(piece);
        proof {
            assert forall|k: int| 0 <= k < pieces@.len() implies (#[trigger] pieces@[k])@ == spec_hard_break(word@, budget as nat)[k] by {
                if k < before.len() {
                    assert(pieces@[k] == before[k]);
                }
            }
        }
    }
    pieces
}

/// The text of each of some character vectors.
pub open spec fn deep(v: Seq<Vec<char>>) -> Seq<Seq<char>> {
    Seq::new(v.len(), |i: int| v[i]@)
}

/// The lines finished, the line being filled, and its cells.
pub type Wrapping = (Seq<Seq<char>>, Seq<char>, nat);

/// One more word through the wrap: a line it would overflow is finished first; a word wider
/// than the whole budget is broken into pieces of its own; otherwise it joins the line after a
/// space.
pub open spec fn wrap_step(st: Wrapping, word: Seq<char>, budget: nat) -> Wrapping {
    let w = spec_display_width(word);
    let with_space = w + (if st.2 > 0 { 1nat } else { 0nat });
    let st1: Wrapping = if st.2 + with_space > budget && st.2 > 0 { (st.0.push(st.1), seq![], 0) } else { st };
    if w > budget {
        let pieces = spec_hard_break(word, budget);
        if pieces.len() == 0 {
            (st1.0, st1.1, 0)
        } else if st1.1.len() > 0 {
            (st1.0.push(st1.1) + pieces, seq![], 0)
        } else {
            (st1.0 + pieces, seq![], 0)
        }
    } else if st1.2 > 0 {
        (st1.0, st1.1.push(' ') + word, st1.2 + 1 + w)
    } else {
        (st1.0, st1.1 + word, st1.2 + w)
    }
}

pub open spec fn wrap_scan(ws: Seq<Seq<char>>, budget: nat) -> Wrapping
    decreases ws.len(),
{
    if ws.len() == 0 {
        (seq![], seq![], 0)
    } else {
        wrap_step(wrap_scan(ws.drop_last(), budget), ws.last(), budget)
    }
}

/// `text` broken into lines of at most `budget` cells, on whitespace where it can be.
pub open spec fn spec_wrap(text: Seq<char>, budget: nat) -> Seq<Seq<char>> {
    let st = wrap_scan(words(text), budget);
    if st.1.len() > 0 { st.0.push(st.1) } else { st.0 }
}

proof fn lemma_wrap_used(ws: Seq<Seq<char>>, budget: nat)
    ensures
        wrap_scan(ws, budget).2 <= budget,
    decreases ws.len(),
{
    if ws.len() > 0 {
        lemma_wrap_used(ws.drop_last(), budget);
    }
}

fn push_all(out: &mut Vec<char>, t: &[char])
    ensures
        final(out)@ == old(out)@ + t@,
{
    let ghost start = out@;
    let mut k: usize = 0;
    while k < t.len()
        invariant
            k <= t@.len(),
            out@ == start + t@.subrange(0, k as int),
        decreases t.len() - k,
    {
        out.push(t[k]);
        k += 1;
        assert(out@ =~= start + t@.subrange(0, k as int));
    }
    assert(t@.subrange(0, t@.len() as int) =~= t@);
}

pub fn wrap(text: &[char], budget: usize) -> (r: Vec<Vec<char>>)
    requires
        fits(text@),
    ensures
        deep(r@) == spec_wrap(text@, budget as nat),
{
    let ws = words_of(text);
    let ghost spec_ws = words(text@);
    proof {
        lemma_words_bounded(text@);
    }
    let mut lines: Vec<Vec<char>> = Vec::new();
    let mut line: Vec<char> = Vec::new();
    let mut used: usize = 0;
    let mut i: usize = 0;
    assert(deep(lines@) =~= Seq::<Seq<char>>::empty());
    while i < ws.len()
        invariant
            i <= ws@.len(),
            ws@.len() == spec_ws.len(),
            forall|k: int| 0 <= k < ws@.len() ==> (#[trigger] ws@[k])@ == spec_ws[k],
            forall|k: int| 0 <= k < spec_ws.len() ==> 0 < (#[trigger] spec_ws[k]).len() <= text@.len(),
            fits(text@),
            spec_ws == words(text@),
            ({
                let st = wrap_scan(spec_ws.subrange(0, i as int), budget as nat);
                &&& deep(lines@) == st.0
                &&& line@ == st.1
                &&& used == st.2
            }),
            used <= budget,
        decreases ws.len() - i,
    {
        let word = &ws[i];
        let ghost st0 = wrap_scan(spec_ws.subrange(0, i as int), budget as nat);
        proof {
            assert(spec_ws.subrange(0, i + 1).drop_last() =~= spec_ws.subrange(0, i as int));
            assert(spec_ws.subrange(0, i + 1).last() == word@);
            lemma_width_bound(word@);
        }
        let w = width_of(word.as_slice());
        let space: usize = if used > 0 {
            1
        } else {
            0
        };
        if used > 0 && w + space > budget - used {
            let mut done = Vec::new();
            std::mem::swap(&mut done, &mut line);
            let ghost before = lines@;
            lines.push(done);
            assert(deep(lines@) =~= deep(before).push(done@));
            used = 0;
        }
        if w > budget {
            let pieces = hard_break(word.as_slice(), budget);
            let ghost start = deep(lines@);
            let ghost line0 = line@;
            let mut k: usize = 0;
            while k < pieces.len()
                invariant
                    k <= pieces@.len(),
                    forall|j: int| 0 <= j < pieces@.len() ==> (#[trigger] pieces@[j])@ == spec_hard_break(word@, budget as nat)[j],
                    pieces@.len() == spec_hard_break(word@, budget as nat).len(),
                    k == 0 ==> deep(lines@) == start && line@ == line0,
                    k > 0 ==> line@.len() == 0 && deep(lines@) == (if line0.len() > 0 {
                        start.push(line0)
                    } else {
                        start
                    }) + deep(pieces@).subrange(0, k as int),
                decreases pieces.len() - k,
            {
                let ghost before = lines@;
                if line.len() > 0 {
                    let mut done = Vec::new();
                    std::mem::swap(&mut done, &mut line);
                    lines.push(done);
                    assert(deep(lines@) =~= deep(before).push(done@));
                }
                let ghost mid = lines@;
                let piece = text::slice_vec(pieces[k].as_slice(), 0, pieces[k].len());
                assert(piece@ =~= pieces@[k as int]@);
                lines.push(piece);
                assert(deep(lines@) =~= deep(mid).push(pieces@[k as int]@));
                k += 1;
                assert(deep(lines@) =~= (if line0.len() > 0 {
                    start.push(line0)
                } else {
                    start
                }) + deep(pieces@).subrange(0, k as int));
            }
            assert(deep(pieces@) =~= spec_hard_break(word@, budget as nat));
            assert(deep(pieces@).subrange(0, pieces@.len() as int) =~= deep(pieces@));
            used = 0;
        } else {
            if used > 0 {
                line.push(' ');
                used = used + 1;
            }
            push_all(&mut line, word.as_slice());
            used = used + w;
        }
        i += 1;
        proof {
            lemma_wrap_used(spec_ws.subrange(0, i as int), budget as nat);
        }
    }
    assert(spec_ws.subrange(0, spec_ws.len() as int) =~= spec_ws);
    if line.len() > 0 {
        let ghost before = lines@;
        lines.push(line);
        assert(deep(lines@) =~= deep(before).push(line@));
    }
    lines
}

// ------------------------------------------------------------------ the block

/// How wide the label column is padded to, in characters, so names start in the same column on
/// every row.
pub const LABEL_WIDTH: usize = 7;

/// What a row does when it does not fit.
#[derive(Debug, Clone, Copy, PartialEq, Eq, Structural)]
pub enum Overflow {
    /// Cut, and append ` +N` for what was dropped. Counts whitespace-separated items.
    Count,
    /// Cut, and append `…`.
    Ellipsis,
    /// Continue on the next line, indented under the first and keeping the rail.
    Wrap,
}

/// The overflow a name means, trimmed.
pub open spec fn spec_named(name: Seq<char>) -> Option<Overflow> {
    let n = text::spec_trim(name);
    if n == "count"@ {
        Some(Overflow::Count)
    } else if n == "ellipsis"@ {
        Some(Overflow::Ellipsis)
    } else if n == "wrap"@ {
        Some(Overflow::Wrap)
    } else {
        None
    }
}

impl Overflow {
    /// The spelling a Lua caller writes; an unknown name is `None`, so the caller can refuse it.
    pub fn named(name: &str) -> (r: Option<Overflow>)
        ensures
            r == spec_named(name@),
    {
        let n = text::chars_of(name);
        let n = text::trim(n.as_slice());
        let n = n.as_slice();
        if text::eq_str(n, "count") {
            Some(Overflow::Count)
        } else if text::eq_str(n, "ellipsis") {
            Some(Overflow::Ellipsis)
        } else if text::eq_str(n, "wrap") {
            Some(Overflow::Wrap)
        } else {
            None
        }
    }
}

/// One rail row: its label, its text, whether the text is drawn dim, and how it overflows.
#[derive(Debug, Clone)]
pub struct Row {
    pub label: String,
    pub text: String,
    pub dimmed: bool,
    pub overflow: Overflow,
}

/// A row as text.
pub type RowView = (Seq<char>, Seq<char>, bool, Overflow);

pub open spec fn row_view(r: Row) -> RowView {
    (r.label@, r.text@, r.dimmed, r.overflow)
}

/// `t` in the dim grey of the rail, when the block is decorated.
pub open spec fn dim(t: Seq<char>, decorated: bool) -> Seq<char> {
    if decorated { "\x1b[38;5;240m"@ + t + "\x1b[0m"@ } else { t }
}

/// A row's text as drawn: dim for a note.
pub open spec fn text_paint(t: Seq<char>, dimmed: bool, decorated: bool) -> Seq<char> {
    if dimmed { dim(t, decorated) } else { t }
}

/// `n` spaces.
pub open spec fn spaces(n: nat) -> Seq<char> {
    Seq::new(n, |_i: int| ' ')
}

/// A label padded to the label column, counted in characters.
pub open spec fn label_cell(label: Seq<char>) -> Seq<char> {
    if label.len() < LABEL_WIDTH { label + spaces((LABEL_WIDTH - label.len()) as nat) } else { label }
}

/// Everything left of a row's text: the indent, the rail when decorated, and the label column.
pub open spec fn lead(cell: Seq<char>, decorated: bool) -> Seq<char> {
    if decorated { "  "@ + dim("\u{2502}"@, true) + " "@ + cell } else { "  "@ + cell }
}

/// The cells a row spends before its text: two of indent, the rail and a space when decorated,
/// the label column, and a space.
pub open spec fn prefix_width(decorated: bool) -> nat {
    if decorated { 12 } else { 10 }
}

/// The cells left for a row's text on `columns`, never fewer than one.
pub open spec fn row_budget(columns: nat, decorated: bool) -> nat {
    if columns > prefix_width(decorated) { (columns - prefix_width(decorated)) as nat } else { 1 }
}

/// The lines one row draws as.
pub open spec fn row_lines(r: RowView, decorated: bool, columns: nat) -> Seq<Seq<char>> {
    let budget = row_budget(columns, decorated);
    let first = lead(label_cell(r.0), decorated);
    match r.3 {
        Overflow::Wrap => {
            let pieces = spec_wrap(r.1, budget);
            if pieces.len() == 0 {
                seq![first + " "@]
            } else {
                Seq::new(
                    pieces.len(),
                    |i: int|
                        (if i == 0 { first } else { lead(spaces(LABEL_WIDTH as nat), decorated) }) + " "@
                            + text_paint(pieces[i], r.2, decorated),
                )
            }
        },
        Overflow::Ellipsis => {
            let (shown, cut) = spec_cut_to(r.1, budget);
            seq![first + " "@ + text_paint(shown, r.2, decorated) + (if cut { dim("\u{2026}"@, decorated) } else { seq![] })]
        },
        Overflow::Count => {
            let (shown, hidden) = spec_fit_items(r.1, budget);
            seq![first + " "@ + text_paint(shown, r.2, decorated) + (if hidden > 0 {
                dim(" +"@ + decimal(hidden), decorated)
            } else {
                seq![]
            })]
        },
    }
}

/// The lines of all the rows, in order.
pub open spec fn rows_lines(rows: Seq<RowView>, decorated: bool, columns: nat) -> Seq<Seq<char>>
    decreases rows.len(),
{
    if rows.len() == 0 {
        seq![]
    } else {
        rows_lines(rows.drop_last(), decorated, columns) + row_lines(rows.last(), decorated, columns)
    }
}

/// The block as lines: the headline, when there is one, then every row's lines.
pub open spec fn block_lines(head: Seq<char>, rows: Seq<RowView>, decorated: bool, columns: nat) -> Seq<Seq<char>> {
    (if head.len() > 0 { seq![head] } else { seq![] }) + rows_lines(rows, decorated, columns)
}

/// A headline and its rows, built up and then rendered.
#[derive(Debug)]
pub struct Block {
    head: String,
    rows: Vec<Row>,
    /// Whether to draw the rail and paint at all. Off when nothing is watching: a rail glyph in
    /// somebody's `grep` is not a decoration, it is damage.
    decorated: bool,
    /// The width to fit to.
    columns: usize,
}

impl Block {
    pub closed spec fn head_view(&self) -> Seq<char> {
        self.head@
    }

    pub closed spec fn rows_view(&self) -> Seq<RowView> {
        Seq::new(self.rows@.len(), |i: int| row_view(self.rows@[i]))
    }

    pub closed spec fn decorated(&self) -> bool {
        self.decorated
    }

    pub closed spec fn columns(&self) -> nat {
        self.columns as nat
    }

    /// Every row holds text of a length a machine can measure.
    pub open spec fn wf(&self) -> bool {
        forall|i: int| 0 <= i < self.rows_view().len() ==> fits((#[trigger] self.rows_view()[i]).0) && fits(self.rows_view()[i].1)
    }

    /// A block headed by `head`, decorated, and fitted to [`FALLBACK_COLS`] until [`Block::width`]
    /// says otherwise; the caller with a terminal passes its width.
    pub fn new(head: String) -> (b: Block)
        ensures
            b.wf(),
            b.head_view() == head@,
            b.rows_view() == Seq::<RowView>::empty(),
            b.decorated(),
            b.columns() == FALLBACK_COLS,
    {
        let b = Block { head, rows: Vec::new(), decorated: true, columns: FALLBACK_COLS };
        assert(b.rows_view() =~= Seq::<RowView>::empty());
        b
    }

    /// Draw plain: no rail, no colour. For a block whose output is not going to a terminal.
    pub fn plain(self) -> (b: Block)
        ensures
            b.head_view() == self.head_view(),
            b.rows_view() == self.rows_view(),
            !b.decorated(),
            b.columns() == self.columns(),
    {
        Block { head: self.head, rows: self.rows, decorated: false, columns: self.columns }
    }

    /// Fit to `columns` rather than to the terminal, never fewer than one.
    pub fn width(self, columns: usize) -> (b: Block)
        ensures
            b.head_view() == self.head_view(),
            b.rows_view() == self.rows_view(),
            b.decorated() == self.decorated(),
            b.columns() == (if columns >= 1 { columns as nat } else { 1 }),
    {
        let c = if columns >= 1 {
            columns
        } else {
            1
        };
        Block { head: self.head, rows: self.rows, decorated: self.decorated, columns: c }
    }

    fn push(&mut self, label: String, text: String, dimmed: bool)
        ensures
            final(self).head_view() == old(self).head_view(),
            final(self).decorated() == old(self).decorated(),
            final(self).columns() == old(self).columns(),
            final(self).rows_view() == old(self).rows_view().push((label@, text@, dimmed, Overflow::Count)),
    {
        let ghost before = self.rows_view();
        self.rows.push(Row { label, text, dimmed, overflow: Overflow::Count });
        assert(self.rows_view() =~= before.push((label@, text@, dimmed, Overflow::Count)));
    }

    /// A labelled row, which counts what does not fit until told otherwise.
    pub fn row(&mut self, label: String, text: String)
        requires
            old(self).wf(),
            fits(label@),
            fits(text@),
        ensures
            final(self).wf(),
            final(self).head_view() == old(self).head_view(),
            final(self).decorated() == old(self).decorated(),
            final(self).columns() == old(self).columns(),
            final(self).rows_view() == old(self).rows_view().push((label@, text@, false, Overflow::Count)),
    {
        self.push(label, text, false);
    }

    /// A row with no label, drawn dim: a detail line under whatever came before it.
    pub fn note(&mut self, text: String)
        requires
            old(self).wf(),
            fits(text@),
        ensures
            final(self).wf(),
            final(self).head_view() == old(self).head_view(),
            final(self).decorated() == old(self).decorated(),
            final(self).columns() == old(self).columns(),
            final(self).rows_view() == old(self).rows_view().push((seq![], text@, true, Overflow::Count)),
    {
        self.push(String::new(), text, true);
    }

    /// How the row just added overflows; with no row yet, nothing changes.
    pub fn overflow(&mut self, how: Overflow)
        requires
            old(self).wf(),
        ensures
            final(self).wf(),
            final(self).head_view() == old(self).head_view(),
            final(self).decorated() == old(self).decorated(),
            final(self).columns() == old(self).columns(),
            final(self).rows_view() == (if old(self).rows_view().len() > 0 {
                let last = old(self).rows_view().last();
                old(self).rows_view().update(old(self).rows_view().len() - 1, (last.0, last.1, last.2, how))
            } else {
                old(self).rows_view()
            }),
    {
        let ghost before = self.rows_view();
        let n = self.rows.len();
        if n > 0 {
            self.rows[n - 1].overflow = how;
            assert(self.rows_view() =~= before.update(n - 1, (before.last().0, before.last().1, before.last().2, how)));
        }
    }

    /// Whether anything but the headline was added.
    pub fn is_bare(&self) -> (r: bool)
        ensures
            r == (self.rows_view().len() == 0),
    {
        self.rows.len() == 0
    }
}

/// The text of each of some strings.
pub open spec fn strs(v: Seq<String>) -> Seq<Seq<char>> {
    Seq::new(v.len(), |i: int| v[i]@)
}

fn push_lit(out: &mut Vec<char>, t: &str)
    ensures
        final(out)@ == old(out)@ + t@,
{
    let cs = text::chars_of(t);
    push_all(out, cs.as_slice());
}

fn dim_into(out: &mut Vec<char>, t: &[char], decorated: bool)
    ensures
        final(out)@ == old(out)@ + dim(t@, decorated),
{
    let ghost start = out@;
    if decorated {
        push_lit(out, "\x1b[38;5;240m");
        push_all(out, t);
        push_lit(out, "\x1b[0m");
    } else {
        push_all(out, t);
    }
    assert(out@ =~= start + dim(t@, decorated));
}

fn paint_into(out: &mut Vec<char>, t: &[char], dimmed: bool, decorated: bool)
    ensures
        final(out)@ == old(out)@ + text_paint(t@, dimmed, decorated),
{
    if dimmed {
        dim_into(out, t, decorated);
    } else {
        push_all(out, t);
    }
}

fn lead_of(cell: &[char], decorated: bool) -> (r: Vec<char>)
    ensures
        r@ == lead(cell@, decorated),
{
    let mut out: Vec<char> = Vec::new();
    push_lit(&mut out, "  ");
    if decorated {
        let rail = text::chars_of("\u{2502}");
        dim_into(&mut out, rail.as_slice(), true);
        push_lit(&mut out, " ");
    }
    push_all(&mut out, cell);
    assert(out@ =~= lead(cell@, decorated));
    out
}

fn label_cell_of(label: &[char]) -> (r: Vec<char>)
    ensures
        r@ == label_cell(label@),
{
    let mut out = text::slice_vec(label, 0, label.len());
    assert(out@ =~= label@);
    if label.len() < LABEL_WIDTH {
        let mut k: usize = label.len();
        while k < LABEL_WIDTH
            invariant
                label@.len() <= k <= LABEL_WIDTH,
                out@ == label@ + spaces((k - label@.len()) as nat),
            decreases LABEL_WIDTH - k,
        {
            out.push(' ');
            k += 1;
            assert(out@ =~= label@ + spaces((k - label@.len()) as nat));
        }
    }
    out
}

/// A counted row's one line.
fn count_line(first: &[char], body: &[char], budget: usize, dimmed: bool, decorated: bool) -> (r: Vec<char>)
    requires
        fits(body@),
    ensures
        r@ == first@ + " "@ + text_paint(spec_fit_items(body@, budget as nat).0, dimmed, decorated) + (if spec_fit_items(
            body@,
            budget as nat,
        ).1 > 0 {
            dim(" +"@ + decimal(spec_fit_items(body@, budget as nat).1), decorated)
        } else {
            seq![]
        }),
{
    let (shown, hidden) = fit_items(body, budget);
    let mut line = text::slice_vec(first, 0, first.len());
    assert(line@ =~= first@);
    push_lit(&mut line, " ");
    paint_into(&mut line, shown.as_slice(), dimmed, decorated);
    let ghost mid = line@;
    if hidden > 0 {
        let mut more = text::chars_of(" +");
        let digits = text::decimal_chars(hidden);
        push_all(&mut more, digits.as_slice());
        dim_into(&mut line, more.as_slice(), decorated);
    } else {
        assert(line@ =~= mid + Seq::<char>::empty());
    }
    line
}

/// A row's one line, cut to fit with a `…` when anything was cut.
fn ellipsis_line(first: &[char], body: &[char], budget: usize, dimmed: bool, decorated: bool) -> (r: Vec<char>)
    requires
        fits(body@),
    ensures
        r@ == first@ + " "@ + text_paint(spec_cut_to(body@, budget as nat).0, dimmed, decorated) + (if spec_cut_to(
            body@,
            budget as nat,
        ).1 {
            dim("\u{2026}"@, decorated)
        } else {
            seq![]
        }),
{
    let (shown, cut) = cut_to(body, budget);
    let mut line = text::slice_vec(first, 0, first.len());
    assert(line@ =~= first@);
    push_lit(&mut line, " ");
    paint_into(&mut line, shown.as_slice(), dimmed, decorated);
    let ghost mid = line@;
    if cut {
        let dots = text::chars_of("\u{2026}");
        dim_into(&mut line, dots.as_slice(), decorated);
    } else {
        assert(line@ =~= mid + Seq::<char>::empty());
    }
    line
}

/// The lines of a wrapped row.
fn wrap_lines(row: &Row, first: &[char], decorated: bool, budget: usize, out: &mut Vec<String>)
    requires
        fits(row.text@),
        row.overflow == Overflow::Wrap,
        first@ == lead(label_cell(row.label@), decorated),
    ensures
        strs(final(out)@) == strs(old(out)@) + (if spec_wrap(row.text@, budget as nat).len() == 0 {
            seq![first@ + " "@]
        } else {
            Seq::new(
                spec_wrap(row.text@, budget as nat).len(),
                |i: int|
                    (if i == 0 { first@ } else { lead(spaces(LABEL_WIDTH as nat), decorated) }) + " "@
                        + text_paint(spec_wrap(row.text@, budget as nat)[i], row.dimmed, decorated),
            )
        }),
{
    let ghost start = strs(out@);
    let body = text::chars_of(row.text.as_str());
    let pieces = wrap(body.as_slice(), budget);
    let ghost ps = spec_wrap(row.text@, budget as nat);
    if pieces.len() == 0 {
        let mut line = text::slice_vec(first, 0, first.len());
        push_lit(&mut line, " ");
        let ghost before = out@;
        out.push(text::string_of(line.as_slice()));
        assert(strs(out@) =~= strs(before).push(line@));
        assert(line@ =~= first@ + " "@);
        return;
    }
    let blank = label_cell_of(Vec::new().as_slice());
    let rest = lead_of(blank.as_slice(), decorated);
    proof {
        assert(Seq::<char>::empty() + spaces(LABEL_WIDTH as nat) =~= spaces(LABEL_WIDTH as nat));
    }
    let ghost want = Seq::new(
        ps.len(),
        |i: int|
            (if i == 0 { first@ } else { lead(spaces(LABEL_WIDTH as nat), decorated) }) + " "@
                + text_paint(ps[i], row.dimmed, decorated),
    );
    let mut k: usize = 0;
    while k < pieces.len()
        invariant
            k <= pieces@.len(),
            deep(pieces@) == ps,
            rest@ == lead(spaces(LABEL_WIDTH as nat), decorated),
            want.len() == pieces@.len(),
            want == Seq::new(
                ps.len(),
                |i: int|
                    (if i == 0 { first@ } else { lead(spaces(LABEL_WIDTH as nat), decorated) }) + " "@
                        + text_paint(ps[i], row.dimmed, decorated),
            ),
            strs(out@) == start + want.subrange(0, k as int),
        decreases pieces.len() - k,
    {
        let mut line = if k == 0 {
            text::slice_vec(first, 0, first.len())
        } else {
            text::slice_vec(rest.as_slice(), 0, rest.len())
        };
        push_lit(&mut line, " ");
        paint_into(&mut line, pieces[k].as_slice(), row.dimmed, decorated);
        proof {
            assert(deep(pieces@)[k as int] == pieces@[k as int]@);
            assert(line@ =~= want[k as int]);
        }
        let ghost before = out@;
        out.push(text::string_of(line.as_slice()));
        assert(strs(out@) =~= strs(before).push(line@));
        k += 1;
        assert(strs(out@) =~= start + want.subrange(0, k as int));
    }
    assert(want.subrange(0, want.len() as int) =~= want);
}

fn render_row(row: &Row, decorated: bool, columns: usize, out: &mut Vec<String>)
    requires
        fits(row.label@),
        fits(row.text@),
    ensures
        strs(final(out)@) == strs(old(out)@) + row_lines(row_view(*row), decorated, columns as nat),
{
    let prefix: usize = if decorated {
        12
    } else {
        10
    };
    let budget: usize = if columns > prefix {
        columns - prefix
    } else {
        1
    };
    assert(budget as nat == row_budget(columns as nat, decorated));
    let label = text::chars_of(row.label.as_str());
    let cell = label_cell_of(label.as_slice());
    let first = lead_of(cell.as_slice(), decorated);
    match row.overflow {
        Overflow::Wrap => {
            wrap_lines(row, first.as_slice(), decorated, budget, out);
        },
        Overflow::Ellipsis => {
            let body = text::chars_of(row.text.as_str());
            let line = ellipsis_line(first.as_slice(), body.as_slice(), budget, row.dimmed, decorated);
            let ghost before = out@;
            out.push(text::string_of(line.as_slice()));
            assert(strs(out@) =~= strs(before).push(line@));
        },
        Overflow::Count => {
            let body = text::chars_of(row.text.as_str());
            let line = count_line(first.as_slice(), body.as_slice(), budget, row.dimmed, decorated);
            let ghost before = out@;
            out.push(text::string_of(line.as_slice()));
            assert(strs(out@) =~= strs(before).push(line@));
        },
    }
}

impl Block {
    /// The block as lines, headline first. Nothing is written.
    pub fn lines(&self) -> (r: Vec<String>)
        requires
            self.wf(),
        ensures
            strs(r@) == block_lines(self.head_view(), self.rows_view(), self.decorated(), self.columns()),
    {
        let mut out: Vec<String> = Vec::new();
        if self.head.unicode_len() > 0 {
            out.push(text::string_of(text::chars_of(self.head.as_str()).as_slice()));
        }
        let ghost head_part = strs(out@);
        assert(head_part =~= (if self.head@.len() > 0 { seq![self.head@] } else { seq![] }));
        let ghost rows = self.rows_view();
        let mut i: usize = 0;
        while i < self.rows.len()
            invariant
                i <= self.rows@.len(),
                rows == self.rows_view(),
                self.wf(),
                strs(out@) == head_part + rows_lines(rows.subrange(0, i as int), self.decorated, self.columns as nat),
            decreases self.rows.len() - i,
        {
            let row = &self.rows[i];
            proof {
                assert(rows[i as int] == row_view(*row));
                assert(fits(rows[i as int].0) && fits(rows[i as int].1));
                assert(rows.subrange(0, i + 1).drop_last() =~= rows.subrange(0, i as int));
                assert(rows.subrange(0, i + 1).last() == row_view(*row));
            }
            let ghost before = strs(out@);
            render_row(row, self.decorated, self.columns, &mut out);
            assert(strs(out@) =~= head_part + rows_lines(rows.subrange(0, i + 1), self.decorated, self.columns as nat));
            i += 1;
        }
        assert(rows.subrange(0, rows.len() as int) =~= rows);
        out
    }
}

/// A counted row accounts for every item: the ones shown and the count of the rest add up to
/// all of them, and at least one is shown whenever there is one, however narrow the room.
pub proof fn law_a_count_row_accounts_for_every_item(text: Seq<char>, budget: nat)
    ensures
        fit_count(words(text), 0, 0, budget) + spec_fit_items(text, budget).1 == words(text).len(),
        words(text).len() > 0 ==> fit_count(words(text), 0, 0, budget) >= 1,
{
    let items = words(text);
    lemma_fit_count_bound(items, 0, 0, budget);
    if items.len() > 0 {
        let w = spec_display_width(items[0]);
        lemma_fit_count_bound(items, 1, w, budget);
    }
}

} // verus!
