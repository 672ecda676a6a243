//! Measuring things in terminal cells: string widths, wrap counts and cutting to fit.
//!
//! A miscount by one cell is a wrapped row, and a wrapped row is a cursor-up that walks too few
//! lines and paints over the prompt.

use vstd::prelude::*;
use crate::text::{self, fits, spec_is_ascii_alphabetic};

verus! {

/// The width assumed when the terminal will not say.
pub const FALLBACK_COLS: usize = 80;

/// Cells one character takes: 0 for zero-width marks and control characters, 2 for wide East
/// Asian characters and emoji, 1 otherwise.
pub open spec fn spec_char_width(c: char) -> nat {
    let cp = c as u32;
    if (0x200b <= cp <= 0x200f) || (0xfe00 <= cp <= 0xfe0f) || (0x0300 <= cp <= 0x036f) || (0x1ab0
        <= cp <= 0x1aff) {
        0
    } else if (0x1100 <= cp <= 0x115f) || (0x2e80 <= cp <= 0x303e) || (0x3041 <= cp <= 0x33ff)
        || (0x3400 <= cp <= 0x4dbf) || (0x4e00 <= cp <= 0x9fff) || (0xa000 <= cp <= 0xa4cf) || (
    0xac00 <= cp <= 0xd7a3) || (0xf900 <= cp <= 0xfaff) || (0xfe30 <= cp <= 0xfe6f) || (0xff00
        <= cp <= 0xff60) || (0xffe0 <= cp <= 0xffe6) {
        2
    } else if (0x1f300 <= cp <= 0x1faff) || (0x1f000 <= cp <= 0x1f0ff) || cp == 0x26a1 || (0x2b1b
        <= cp <= 0x2b1c) || cp == 0x2b50 {
        2
    } else if cp < 0x20 {
        0
    } else {
        1
    }
}

pub fn char_width(c: char) -> (w: usize)
    ensures
        w == spec_char_width(c),
        w <= 2,
{
    let cp = c as u32;
    if (0x200b <= cp && cp <= 0x200f) || (0xfe00 <= cp && cp <= 0xfe0f) || (0x0300 <= cp && cp
        <= 0x036f) || (0x1ab0 <= cp && cp <= 0x1aff) {
        0
    } else if (0x1100 <= cp && cp <= 0x115f) || (0x2e80 <= cp && cp <= 0x303e) || (0x3041 <= cp
        && cp <= 0x33ff) || (0x3400 <= cp && cp <= 0x4dbf) || (0x4e00 <= cp && cp <= 0x9fff) || (
    0xa000 <= cp && cp <= 0xa4cf) || (0xac00 <= cp && cp <= 0xd7a3) || (0xf900 <= cp && cp
        <= 0xfaff) || (0xfe30 <= cp && cp <= 0xfe6f) || (0xff00 <= cp && cp <= 0xff60) || (0xffe0
        <= cp && cp <= 0xffe6) {
        2
    } else if (0x1f300 <= cp && cp <= 0x1faff) || (0x1f000 <= cp && cp <= 0x1f0ff) || cp == 0x26a1
        || (0x2b1b <= cp && cp <= 0x2b1c) || cp == 0x2b50 {
        2
    } else if cp < 0x20 {
        0
    } else {
        1
    }
}

/// What `display_width` has seen so far: the width, whether it is inside an escape, and the last
/// character that was counted.
pub struct WidthState {
    pub width: nat,
    pub in_esc: bool,
    pub prev: Option<char>,
}

/// One character more. An escape runs from `ESC` to the next ASCII letter and takes no cells;
/// `U+FE0F` widens a one-cell character before it to two.
pub open spec fn width_step(st: WidthState, c: char) -> WidthState {
    if st.in_esc {
        WidthState { width: st.width, in_esc: !spec_is_ascii_alphabetic(c), prev: st.prev }
    } else if c == '\x1b' {
        WidthState { width: st.width, in_esc: true, prev: st.prev }
    } else if c == '\u{fe0f}' {
        WidthState {
            width: st.width + (if st.prev matches Some(p) && spec_char_width(p) == 1 {
                1nat
            } else {
                0nat
            }),
            in_esc: false,
            prev: Some(c),
        }
    } else {
        WidthState { width: st.width + spec_char_width(c), in_esc: false, prev: Some(c) }
    }
}

pub open spec fn width_scan(s: Seq<char>) -> WidthState
    decreases s.len(),
{
    if s.len() == 0 {
        WidthState { width: 0, in_esc: false, prev: None }
    } else {
        width_step(width_scan(s.drop_last()), s.last())
    }
}

/// How many terminal cells `s` occupies when printed.
pub open spec fn spec_display_width(s: Seq<char>) -> nat {
    width_scan(s).width
}

pub proof fn lemma_width_bound(s: Seq<char>)
    ensures
        width_scan(s).width <= 2 * s.len(),
    decreases s.len(),
{
    if s.len() > 0 {
        lemma_width_bound(s.drop_last());
    }
}

/// How many terminal cells `s` occupies when printed: SGR and other CSI escapes count for
/// nothing, and a wide character counts for two.
pub fn display_width(s: &str) -> (w: usize)
    requires
        fits(s@),
    ensures
        w == spec_display_width(s@),
{
    let v = text::chars_of(s);
    width_of(v.as_slice())
}

pub fn width_of(v: &[char]) -> (w: usize)
    requires
        v@.len() <= usize::MAX / 8 + 1,
    ensures
        w == spec_display_width(v@),
{
    let mut width: usize = 0;
    let mut in_esc = false;
    let mut prev: Option<char> = None;
    let mut i: usize = 0;
    while i < v.len()
        invariant
            i <= v.len(),
            v@.len() <= usize::MAX / 8 + 1,
            width_scan(v@.subrange(0, i as int)) == (WidthState {
                width: width as nat,
                in_esc,
                prev,
            }),
        decreases v.len() - i,
    {
        let c = v[i];
        proof {
            assert(v@.subrange(0, i + 1).drop_last() =~= v@.subrange(0, i as int));
            lemma_width_bound(v@.subrange(0, i as int));
        }
        if in_esc {
            if 'a' <= c && c <= 'z' || 'A' <= c && c <= 'Z' {
                in_esc = false;
            }
        } else if c == '\x1b' {
            in_esc = true;
        } else if c == '\u{fe0f}' {
            match prev {
                Some(p) => {
                    if char_width(p) == 1 {
                        width += 1;
                    }
                },
                None => {},
            }
            prev = Some(c);
        } else {
            width += char_width(c);
            prev = Some(c);
        }
        i += 1;
    }
    assert(v@.subrange(0, v@.len() as int) =~= v@);
    width
}

/// The same as [`display_width`].
pub fn visible_len(s: &str) -> (w: usize)
    requires
        fits(s@),
    ensures
        w == spec_display_width(s@),
{
    display_width(s)
}

/// `s` split into cells: each character with the zero-width marks that follow it, and the cells
/// it takes. A `U+FE0F` after a one-cell character makes that cell two wide.
pub open spec fn spec_cells(s: Seq<char>) -> Seq<(Seq<char>, nat)>
    decreases s.len(),
{
    if s.len() == 0 {
        seq![]
    } else {
        let before = spec_cells(s.drop_last());
        let c = s.last();
        let w = spec_char_width(c);
        if w == 0 && before.len() > 0 {
            let last = before.last();
            let nw: nat = if c == '\u{fe0f}' && last.1 == 1 { 2 } else { last.1 };
            before.update(before.len() - 1, (last.0.push(c), nw))
        } else {
            before.push((seq![c], w))
        }
    }
}

proof fn lemma_cells_bound(s: Seq<char>)
    ensures
        spec_cells(s).len() <= s.len(),
        forall|i: int| 0 <= i < spec_cells(s).len() ==> #[trigger] spec_cells(s)[i].1 <= 2,
    decreases s.len(),
{
    if s.len() > 0 {
        lemma_cells_bound(s.drop_last());
    }
}

fn cells_of(v: &[char]) -> (r: Vec<(Vec<char>, usize)>)
    ensures
        r@.len() == spec_cells(v@).len(),
        forall|i: int| 0 <= i < r@.len() ==> (#[trigger] r@[i]).0@ == spec_cells(v@)[i].0
            && r@[i].1 == spec_cells(v@)[i].1,
{
    let mut out: Vec<(Vec<char>, usize)> = Vec::new();
    let mut i: usize = 0;
    while i < v.len()
        invariant
            i <= v.len(),
            out@.len() == spec_cells(v@.subrange(0, i as int)).len(),
            forall|k: int| 0 <= k < out@.len() ==> (#[trigger] out@[k]).0@ == spec_cells(
                v@.subrange(0, i as int),
            )[k].0 && out@[k].1 == spec_cells(v@.subrange(0, i as int))[k].1,
        decreases v.len() - i,
    {
        let c = v[i];
        let w = char_width(c);
        let ghost before = spec_cells(v@.subrange(0, i as int));
        proof {
            assert(v@.subrange(0, i + 1).drop_last() =~= v@.subrange(0, i as int));
            lemma_cells_bound(v@.subrange(0, i as int));
        }
        if w == 0 && out.len() > 0 {
            let n = out.len();
            let (mut chars, width) = out.remove(n - 1);
            let nw = if c == '\u{fe0f}' && width == 1 {
                2
            } else {
                width
            };
            chars.push(c);
            out.push((chars, nw));
            proof {
                let after = spec_cells(v@.subrange(0, i + 1));
                assert(after == before.update(before.len() - 1, (before.last().0.push(c), nw as nat)));
                assert forall|k: int| 0 <= k < out@.len() implies (#[trigger] out@[k]).0@ == after[k].0
                    && out@[k].1 == after[k].1 by {
                    if k < n - 1 {
                        assert(out@[k] == old_out_at(out@, k));
                    }
                }
            }
        } else {
            let mut chars = Vec::new();
            chars.push(c);
            out.push((chars, w));
            proof {
                let after = spec_cells(v@.subrange(0, i + 1));
                assert(chars@ =~= seq![c]);
                assert(after == before.push((seq![c], w as nat)));
            }
        }
        i += 1;
    }
    assert(v@.subrange(0, v@.len() as int) =~= v@);
    out
}

spec fn old_out_at(s: Seq<(Vec<char>, usize)>, k: int) -> (Vec<char>, usize) {
    s[k]
}

/// `s` split into cells, each with the characters it draws and how many cells it takes.
pub fn cells(s: &str) -> (r: Vec<(String, usize)>)
    ensures
        r@.len() == spec_cells(s@).len(),
        forall|i: int| 0 <= i < r@.len() ==> (#[trigger] r@[i]).0@ == spec_cells(s@)[i].0
            && r@[i].1 == spec_cells(s@)[i].1,
{
    let v = text::chars_of(s);
    let cs = cells_of(v.as_slice());
    let mut out: Vec<(String, usize)> = Vec::new();
    let mut i: usize = 0;
    while i < cs.len()
        invariant
            i <= cs.len(),
            cs@.len() == spec_cells(s@).len(),
            forall|k: int| 0 <= k < cs@.len() ==> (#[trigger] cs@[k]).0@ == spec_cells(s@)[k].0
                && cs@[k].1 == spec_cells(s@)[k].1,
            out@.len() == i,
            forall|k: int| 0 <= k < i ==> (#[trigger] out@[k]).0@ == spec_cells(s@)[k].0
                && out@[k].1 == spec_cells(s@)[k].1,
        decreases cs.len() - i,
    {
        let piece = text::string_of(cs[i].0.as_slice());
        out.push((piece, cs[i].1));
        i += 1;
    }
    out
}

/// The characters of the leading cells from `i` on whose widths, added to `used`, stay within
/// `budget`.
pub open spec fn fill_cells(cs: Seq<(Seq<char>, nat)>, i: int, used: nat, budget: nat) -> Seq<char>
    decreases cs.len() - i,
{
    if 0 <= i < cs.len() && used + cs[i].1 <= budget {
        cs[i].0 + fill_cells(cs, i + 1, used + cs[i].1, budget)
    } else {
        seq![]
    }
}

/// `s` cut to `max` cells: unchanged when it fits, and otherwise as many whole cells as fit in
/// `max - 1` followed by `…`.
pub open spec fn spec_truncate(s: Seq<char>, max: nat) -> Seq<char> {
    if spec_display_width(s) <= max {
        s
    } else if max == 0 {
        seq![]
    } else {
        fill_cells(spec_cells(s), 0, 0, (max - 1) as nat).push('…')
    }
}

/// `s` cut to `max` cells, marking the cut with `…`.
pub fn truncate_to_width(s: &str, max: usize) -> (r: String)
    requires
        fits(s@),
    ensures
        r@ == spec_truncate(s@, max as nat),
{
    let v = text::chars_of(s);
    let r = truncate_chars(v.as_slice(), max);
    text::string_of(r.as_slice())
}

pub fn truncate_chars(v: &[char], max: usize) -> (r: Vec<char>)
    requires
        fits(v@),
    ensures
        r@ == spec_truncate(v@, max as nat),
        r@.len() <= v@.len() + 1,
{
    if width_of(v) <= max {
        return text::slice_vec(v, 0, v.len());
    }
    if max == 0 {
        return Vec::new();
    }
    let budget = max - 1;
    let cs = cells_of(v);
    let ghost spec_cs = spec_cells(v@);
    proof {
        lemma_cells_bound(v@);
    }
    let mut out: Vec<char> = Vec::new();
    let mut used: usize = 0;
    let mut i: usize = 0;
    proof {
        lemma_fill_len(spec_cs, 0, 0, budget as nat);
    }
    while i < cs.len() && cs[i].1 <= budget - used
        invariant
            i <= cs.len(),
            cs@.len() == spec_cs.len(),
            spec_cs == spec_cells(v@),
            forall|k: int| 0 <= k < cs@.len() ==> (#[trigger] cs@[k]).0@ == spec_cs[k].0
                && cs@[k].1 == spec_cs[k].1,
            forall|k: int| 0 <= k < spec_cs.len() ==> #[trigger] spec_cs[k].1 <= 2,
            used <= budget,
            out@ + fill_cells(spec_cs, i as int, used as nat, budget as nat) == fill_cells(
                spec_cs,
                0,
                0,
                budget as nat,
            ),
        decreases cs.len() - i,
    {
        let w = cs[i].1;
        let piece = &cs[i].0;
        let next = text::concat(out.as_slice(), piece.as_slice());
        proof {
            assert(next@ + fill_cells(spec_cs, i + 1, (used + w) as nat, budget as nat) =~= out@
                + fill_cells(spec_cs, i as int, used as nat, budget as nat));
        }
        out = next;
        used += w;
        i += 1;
    }
    proof {
        assert(fill_cells(spec_cs, i as int, used as nat, budget as nat) =~= Seq::<char>::empty());
        assert(out@ =~= fill_cells(spec_cs, 0, 0, budget as nat));
        lemma_fill_len(spec_cs, 0, 0, budget as nat);
        lemma_cells_chars(v@);
    }
    out.push('…');
    out
}

proof fn lemma_fill_len(cs: Seq<(Seq<char>, nat)>, i: int, used: nat, budget: nat)
    ensures
        fill_cells(cs, i, used, budget).len() <= cells_chars(cs, i),
    decreases cs.len() - i,
{
    if 0 <= i < cs.len() && used + cs[i].1 <= budget {
        lemma_fill_len(cs, i + 1, used + cs[i].1, budget);
    }
}

/// How many characters the cells from `i` on hold.
pub open spec fn cells_chars(cs: Seq<(Seq<char>, nat)>, i: int) -> nat
    decreases cs.len() - i,
{
    if 0 <= i < cs.len() {
        cs[i].0.len() + cells_chars(cs, i + 1)
    } else {
        0
    }
}

proof fn lemma_cells_chars_push(cs: Seq<(Seq<char>, nat)>, x: (Seq<char>, nat), i: int)
    requires
        0 <= i <= cs.len(),
    ensures
        cells_chars(cs.push(x), i) == cells_chars(cs, i) + x.0.len(),
    decreases cs.len() - i,
{
    if i < cs.len() {
        lemma_cells_chars_push(cs, x, i + 1);
    } else {
        assert(cells_chars(cs.push(x), i + 1) == 0);
    }
}

proof fn lemma_cells_chars_update(cs: Seq<(Seq<char>, nat)>, x: (Seq<char>, nat), i: int)
    requires
        0 <= i < cs.len(),
    ensures
        cells_chars(cs.update(cs.len() - 1, x), i) == cells_chars(cs, i) - cs.last().0.len()
            + x.0.len(),
    decreases cs.len() - i,
{
    if i + 1 < cs.len() {
        lemma_cells_chars_update(cs, x, i + 1);
    } else {
        assert(cells_chars(cs.update(cs.len() - 1, x), i + 1) == 0);
        assert(cells_chars(cs, i + 1) == 0);
    }
}

proof fn lemma_cells_chars_ge_last(cs: Seq<(Seq<char>, nat)>, i: int)
    requires
        0 <= i < cs.len(),
    ensures
        cells_chars(cs, i) >= cs.last().0.len(),
    decreases cs.len() - i,
{
    if i + 1 < cs.len() {
        lemma_cells_chars_ge_last(cs, i + 1);
    } else {
        assert(cells_chars(cs, i + 1) == 0);
    }
}

proof fn lemma_cells_chars(s: Seq<char>)
    ensures
        cells_chars(spec_cells(s), 0) == s.len(),
    decreases s.len(),
{
    if s.len() > 0 {
        let before = spec_cells(s.drop_last());
        lemma_cells_chars(s.drop_last());
        let c = s.last();
        let w = spec_char_width(c);
        if w == 0 && before.len() > 0 {
            let last = before.last();
            let nw: nat = if c == '\u{fe0f}' && last.1 == 1 { 2 } else { last.1 };
            lemma_cells_chars_update(before, (last.0.push(c), nw), 0);
            assert(cells_chars(before, 0) >= last.0.len()) by {
                lemma_cells_chars_ge_last(before, 0);
            }
        } else {
            lemma_cells_chars_push(before, (seq![c], w), 0);
        }
    }
}

/// Text with no escape and no `U+FE0F`: every character takes its own cells, whatever stands
/// before it.
pub open spec fn plain(s: Seq<char>) -> bool {
    forall|i: int| 0 <= i < s.len() ==> #[trigger] s[i] != '\x1b' && s[i] != '\u{fe0f}'
}

/// The cells the characters of `s` take, one by one.
pub open spec fn sum_widths(s: Seq<char>) -> nat
    decreases s.len(),
{
    if s.len() == 0 {
        0
    } else {
        sum_widths(s.drop_last()) + spec_char_width(s.last())
    }
}

/// The width scan run over `s` from the state `st`.
pub open spec fn width_run(st: WidthState, s: Seq<char>) -> WidthState
    decreases s.len(),
{
    if s.len() == 0 {
        st
    } else {
        width_step(width_run(st, s.drop_last()), s.last())
    }
}

/// Whether `s`, read from any point outside an escape, ends outside one having added `w`
/// cells.
pub open spec fn adds(s: Seq<char>, w: nat) -> bool {
    forall|st: WidthState| !st.in_esc ==> (#[trigger] width_run(st, s)).width == st.width + w
        && !width_run(st, s).in_esc
}

pub proof fn lemma_scan_is_run(s: Seq<char>)
    ensures
        width_scan(s) == width_run(WidthState { width: 0, in_esc: false, prev: None }, s),
    decreases s.len(),
{
    if s.len() > 0 {
        lemma_scan_is_run(s.drop_last());
    }
}

pub proof fn lemma_run_append(st: WidthState, a: Seq<char>, b: Seq<char>)
    ensures
        width_run(st, a + b) == width_run(width_run(st, a), b),
    decreases b.len(),
{
    if b.len() == 0 {
        assert(a + b =~= a);
    } else {
        assert((a + b).drop_last() =~= a + b.drop_last());
        assert((a + b).last() == b.last());
        lemma_run_append(st, a, b.drop_last());
    }
}

pub proof fn lemma_adds_concat(a: Seq<char>, wa: nat, b: Seq<char>, wb: nat)
    requires
        adds(a, wa),
        adds(b, wb),
    ensures
        adds(a + b, wa + wb),
{
    assert forall|st: WidthState| !st.in_esc implies (#[trigger] width_run(st, a + b)).width == st.width + (wa
        + wb) && !width_run(st, a + b).in_esc by {
        lemma_run_append(st, a, b);
        let mid = width_run(st, a);
        assert(mid.width == st.width + wa && !mid.in_esc);
        assert(width_run(mid, b).width == mid.width + wb);
    }
}

pub proof fn lemma_sum_widths_concat(a: Seq<char>, b: Seq<char>)
    ensures
        sum_widths(a + b) == sum_widths(a) + sum_widths(b),
    decreases b.len(),
{
    if b.len() == 0 {
        assert(a + b =~= a);
    } else {
        assert((a + b).drop_last() =~= a + b.drop_last());
        lemma_sum_widths_concat(a, b.drop_last());
    }
}

pub proof fn lemma_plain_concat(a: Seq<char>, b: Seq<char>)
    requires
        plain(a),
        plain(b),
    ensures
        plain(a + b),
{
    assert forall|i: int| 0 <= i < (a + b).len() implies #[trigger] (a + b)[i] != '\x1b' && (a + b)[i]
        != '\u{fe0f}' by {
        if i < a.len() {
            assert((a + b)[i] == a[i]);
        } else {
            assert((a + b)[i] == b[i - a.len()]);
        }
    }
}

/// Plain text adds the cells of its characters.
pub proof fn lemma_plain_adds(s: Seq<char>)
    requires
        plain(s),
    ensures
        adds(s, sum_widths(s)),
    decreases s.len(),
{
    if s.len() > 0 {
        let d = s.drop_last();
        assert(plain(d)) by {
            assert forall|i: int| 0 <= i < d.len() implies #[trigger] d[i] != '\x1b' && d[i] != '\u{fe0f}' by {
                assert(d[i] == s[i]);
            }
        }
        lemma_plain_adds(d);
        let c = s.last();
        assert(c != '\x1b' && c != '\u{fe0f}') by {
            assert(s[s.len() - 1] == c);
        }
        assert forall|st: WidthState| !st.in_esc implies (#[trigger] width_run(st, s)).width == st.width
            + sum_widths(s) && !width_run(st, s).in_esc by {
            let m = width_run(st, d);
            assert(m.width == st.width + sum_widths(d) && !m.in_esc);
        }
    }
}

/// Whether `e` is one escape: `ESC`, characters that are not ASCII letters, and a letter.
pub open spec fn one_escape(e: Seq<char>) -> bool {
    &&& e.len() >= 2
    &&& e[0] == '\x1b'
    &&& spec_is_ascii_alphabetic(e[e.len() - 1])
    &&& forall|i: int| 1 <= i < e.len() - 1 ==> !spec_is_ascii_alphabetic(#[trigger] e[i])
}

proof fn lemma_run_inside_escape(st: WidthState, p: Seq<char>)
    requires
        st.in_esc,
        forall|i: int| 0 <= i < p.len() ==> !spec_is_ascii_alphabetic(#[trigger] p[i]),
    ensures
        width_run(st, p).in_esc,
        width_run(st, p).width == st.width,
    decreases p.len(),
{
    if p.len() > 0 {
        let d = p.drop_last();
        assert forall|i: int| 0 <= i < d.len() implies !spec_is_ascii_alphabetic(#[trigger] d[i]) by {
            assert(d[i] == p[i]);
        }
        lemma_run_inside_escape(st, d);
        assert(!spec_is_ascii_alphabetic(p[p.len() - 1]));
    }
}

/// An escape takes no cells.
pub proof fn lemma_escape_adds(e: Seq<char>)
    requires
        one_escape(e),
    ensures
        adds(e, 0),
{
    let mid = e.subrange(1, e.len() - 1);
    assert(e =~= seq![e[0]] + mid + seq![e[e.len() - 1]]);
    assert forall|st: WidthState| !st.in_esc implies (#[trigger] width_run(st, e)).width == st.width + 0
        && !width_run(st, e).in_esc by {
        lemma_run_append(st, seq![e[0]] + mid, seq![e[e.len() - 1]]);
        lemma_run_append(st, seq![e[0]], mid);
        let s1 = width_run(st, seq![e[0]]);
        reveal_with_fuel(width_run, 2);
        assert(seq![e[0]].drop_last() =~= Seq::<char>::empty());
        assert(s1.in_esc && s1.width == st.width);
        assert forall|i: int| 0 <= i < mid.len() implies !spec_is_ascii_alphabetic(#[trigger] mid[i]) by {
            assert(mid[i] == e[i + 1]);
        }
        lemma_run_inside_escape(s1, mid);
        let s2 = width_run(s1, mid);
        assert(seq![e[e.len() - 1]].drop_last() =~= Seq::<char>::empty());
        assert(width_run(s2, seq![e[e.len() - 1]]) == width_step(s2, e[e.len() - 1]));
    }
}

/// The characters and widths of the cells of plain text agree, and every cell is plain.
proof fn lemma_cells_plain(s: Seq<char>)
    requires
        plain(s),
    ensures
        forall|i: int| 0 <= i < spec_cells(s).len() ==> plain(#[trigger] spec_cells(s)[i].0)
            && spec_cells(s)[i].1 == sum_widths(spec_cells(s)[i].0),
    decreases s.len(),
{
    if s.len() > 0 {
        let d = s.drop_last();
        assert(plain(d)) by {
            assert forall|i: int| 0 <= i < d.len() implies #[trigger] d[i] != '\x1b' && d[i] != '\u{fe0f}' by {
                assert(d[i] == s[i]);
            }
        }
        lemma_cells_plain(d);
        let before = spec_cells(d);
        let c = s.last();
        assert(c != '\x1b' && c != '\u{fe0f}') by {
            assert(s[s.len() - 1] == c);
        }
        assert(plain(seq![c]));
        assert(seq![c].drop_last() =~= Seq::<char>::empty());
        reveal_with_fuel(sum_widths, 2);
        assert(sum_widths(seq![c]) == spec_char_width(c));
        let w = spec_char_width(c);
        if w == 0 && before.len() > 0 {
            let last = before.last();
            assert(plain(last.0) && last.1 == sum_widths(last.0));
            lemma_plain_concat(last.0, seq![c]);
            assert(last.0.push(c) =~= last.0 + seq![c]);
            lemma_sum_widths_concat(last.0, seq![c]);
        }
    }
}

/// The leading cells taken add no more than the budget allows, and are plain.
proof fn lemma_fill_plain(cs: Seq<(Seq<char>, nat)>, i: int, used: nat, budget: nat)
    requires
        forall|k: int| 0 <= k < cs.len() ==> plain(#[trigger] cs[k].0) && cs[k].1 == sum_widths(cs[k].0),
        used <= budget,
    ensures
        plain(fill_cells(cs, i, used, budget)),
        used + sum_widths(fill_cells(cs, i, used, budget)) <= budget,
    decreases cs.len() - i,
{
    if 0 <= i < cs.len() && used + cs[i].1 <= budget {
        lemma_fill_plain(cs, i + 1, used + cs[i].1, budget);
        let rest = fill_cells(cs, i + 1, used + cs[i].1, budget);
        assert(plain(cs[i].0));
        lemma_plain_concat(cs[i].0, rest);
        lemma_sum_widths_concat(cs[i].0, rest);
    } else {
        assert(sum_widths(Seq::<char>::empty()) == 0);
    }
}

/// Plain text is as wide as the cells of its characters.
pub proof fn lemma_plain_width(t: Seq<char>)
    requires
        plain(t),
    ensures
        spec_display_width(t) == sum_widths(t),
{
    lemma_plain_adds(t);
    lemma_scan_is_run(t);
}

proof fn lemma_truncate_plain(t: Seq<char>, w: nat)
    requires
        plain(t),
    ensures
        plain(spec_truncate(t, w)),
        sum_widths(spec_truncate(t, w)) <= w,
{
    if spec_display_width(t) <= w {
        lemma_plain_width(t);
    } else if w == 0 {
        assert(sum_widths(Seq::<char>::empty()) == 0);
    } else {
        lemma_cells_plain(t);
        let f = fill_cells(spec_cells(t), 0, 0, (w - 1) as nat);
        lemma_fill_plain(spec_cells(t), 0, 0, (w - 1) as nat);
        let e = seq!['\u{2026}'];
        assert(plain(e));
        assert(e.drop_last() =~= Seq::<char>::empty());
        reveal_with_fuel(sum_widths, 2);
        assert(sum_widths(e) == 1);
        lemma_plain_concat(f, e);
        lemma_sum_widths_concat(f, e);
        assert(f.push('\u{2026}') =~= f + e);
    }
}

/// Plain text cut and padded to `w` cells is plain and exactly `w` cells wide.
pub proof fn lemma_pad_truncate_plain(t: Seq<char>, w: nat)
    requires
        plain(t),
    ensures
        plain(spec_pad(spec_truncate(t, w), w)),
        sum_widths(spec_pad(spec_truncate(t, w), w)) == w,
{
    let cut = spec_truncate(t, w);
    lemma_truncate_plain(t, w);
    lemma_plain_width(cut);
    if sum_widths(cut) < w {
        let fill = Seq::new((w - sum_widths(cut)) as nat, |_i: int| ' ');
        assert(plain(fill));
        lemma_sum_spaces((w - sum_widths(cut)) as nat);
        assert(fill =~= Seq::new((w - spec_display_width(cut)) as nat, |_i: int| ' '));
        lemma_plain_concat(cut, fill);
        lemma_sum_widths_concat(cut, fill);
    }
}

/// Cutting text without escapes or `U+FE0F` to `max` cells leaves at most `max` cells, and
/// leaves text that already fits whole; padding the cut then makes it exactly `max` cells.
pub proof fn law_a_cut_fits(t: Seq<char>, max: nat)
    requires
        plain(t),
    ensures
        spec_display_width(spec_truncate(t, max)) <= max,
        spec_display_width(t) <= max ==> spec_truncate(t, max) == t,
        spec_display_width(spec_pad(spec_truncate(t, max), max)) == max,
{
    lemma_truncate_plain(t, max);
    lemma_plain_width(spec_truncate(t, max));
    lemma_pad_truncate_plain(t, max);
    lemma_plain_width(spec_pad(spec_truncate(t, max), max));
}

pub proof fn lemma_sum_spaces(n: nat)
    ensures
        sum_widths(Seq::new(n, |_i: int| ' ')) == n,
    decreases n,
{
    if n > 0 {
        assert(Seq::new(n, |_i: int| ' ').drop_last() =~= Seq::new((n - 1) as nat, |_i: int| ' '));
        lemma_sum_spaces((n - 1) as nat);
    }
}

/// `s` padded with spaces to `target` cells, or unchanged when it is already that wide.
pub open spec fn spec_pad(s: Seq<char>, target: nat) -> Seq<char> {
    let w = spec_display_width(s);
    if w < target {
        s + Seq::new((target - w) as nat, |_i: int| ' ')
    } else {
        s
    }
}

/// `s` padded with spaces to `target` cells; never shortened.
pub fn pad_to_width(s: &str, target: usize) -> (r: String)
    requires
        fits(s@),
    ensures
        r@ == spec_pad(s@, target as nat),
{
    let v = text::chars_of(s);
    let r = pad_chars(v.as_slice(), target);
    text::string_of(r.as_slice())
}

pub fn pad_chars(v: &[char], target: usize) -> (r: Vec<char>)
    requires
        v@.len() <= usize::MAX / 8 + 1,
    ensures
        r@ == spec_pad(v@, target as nat),
{
    let w = width_of(v);
    let mut out = text::slice_vec(v, 0, v.len());
    if w < target {
        let mut k: usize = 0;
        while k < target - w
            invariant
                w < target,
                k <= target - w,
                out@ == v@ + Seq::new(k as nat, |_i: int| ' '),
            decreases target - w - k,
        {
            out.push(' ');
            k += 1;
            assert(out@ =~= v@ + Seq::new(k as nat, |_i: int| ' '));
        }
    } else {
        assert(out@ =~= v@);
    }
    out
}

/// How many screen rows `width` cells occupy on a `cols`-wide terminal. A row filled exactly to
/// the last column leaves the wrap pending, so it is still one row.
pub open spec fn spec_physical_rows(width: nat, cols: nat) -> nat {
    if cols == 0 || width <= 1 {
        1
    } else {
        1 + ((width - 1) as nat) / cols
    }
}

pub fn physical_rows(width: usize, cols: usize) -> (r: usize)
    ensures
        r == spec_physical_rows(width as nat, cols as nat),
        r >= 1,
{
    if cols == 0 || width <= 1 {
        return 1;
    }
    1 + (width - 1) / cols
}

/// The state of the escape stripper: ordinary text, just after `ESC`, inside a CSI, inside an
/// OSC, or just after an `ESC` inside an OSC.
pub enum Strip {
    Text,
    Esc,
    Csi,
    Osc,
    OscEsc,
}

/// One character more: the state after it, and whether it is kept.
pub open spec fn strip_step(st: Strip, c: char) -> (Strip, bool) {
    match st {
        Strip::Text => if c == '\x1b' { (Strip::Esc, false) } else { (Strip::Text, true) },
        Strip::Esc => if c == '[' {
            (Strip::Csi, false)
        } else if c == ']' {
            (Strip::Osc, false)
        } else {
            (Strip::Text, false)
        },
        Strip::Csi => if spec_is_ascii_alphabetic(c) { (Strip::Text, false) } else { (Strip::Csi, false) },
        Strip::Osc => if c == '\x07' {
            (Strip::Text, false)
        } else if c == '\x1b' {
            (Strip::OscEsc, false)
        } else {
            (Strip::Osc, false)
        },
        Strip::OscEsc => (Strip::Text, false),
    }
}

/// The stripper run over `s`: its final state and what it kept.
pub open spec fn strip_scan(s: Seq<char>) -> (Strip, Seq<char>)
    decreases s.len(),
{
    if s.len() == 0 {
        (Strip::Text, seq![])
    } else {
        let (st, kept) = strip_scan(s.drop_last());
        let (next, keep) = strip_step(st, s.last());
        (next, if keep { kept.push(s.last()) } else { kept })
    }
}

/// Whether `s` holds no `ESC` at all.
pub open spec fn no_escape(s: Seq<char>) -> bool {
    forall|i: int| 0 <= i < s.len() ==> s[i] != '\x1b'
}

proof fn lemma_strip_kept(s: Seq<char>)
    ensures
        no_escape(strip_scan(s).1),
        no_escape(s) ==> strip_scan(s) == (Strip::Text, s),
    decreases s.len(),
{
    if s.len() > 0 {
        lemma_strip_kept(s.drop_last());
        let (st, kept) = strip_scan(s.drop_last());
        let (next, keep) = strip_step(st, s.last());
        if keep {
            assert(no_escape(kept.push(s.last()))) by {
                assert forall|i: int| 0 <= i < kept.push(s.last()).len() implies kept.push(s.last())[i] != '\x1b' by {
                    if i < kept.len() {
                        assert(kept.push(s.last())[i] == kept[i]);
                    }
                }
            }
        }
        if no_escape(s) {
            assert(no_escape(s.drop_last())) by {
                assert forall|i: int| 0 <= i < s.drop_last().len() implies s.drop_last()[i] != '\x1b' by {
                    assert(s.drop_last()[i] == s[i]);
                }
            }
            assert(s.last() != '\x1b') by {
                assert(s[s.len() - 1] != '\x1b');
            }
            assert(s.drop_last().push(s.last()) =~= s);
        }
    }
}

/// Stripping settles at once: what comes out holds no `ESC`, text that holds none comes
/// through unchanged, and so stripping a second time changes nothing.
pub proof fn law_stripping_escapes_settles(s: Seq<char>)
    ensures
        no_escape(strip_scan(s).1),
        no_escape(s) ==> strip_scan(s).1 == s,
        strip_scan(strip_scan(s).1).1 == strip_scan(s).1,
{
    lemma_strip_kept(s);
    lemma_strip_kept(strip_scan(s).1);
}

/// The stripper run over `s` from state `st`: the state it ends in and what it kept.
pub open spec fn strip_from(st: Strip, s: Seq<char>) -> (Strip, Seq<char>)
    decreases s.len(),
{
    if s.len() == 0 {
        (st, seq![])
    } else {
        let (at, kept) = strip_from(st, s.drop_last());
        let (next, keep) = strip_step(at, s.last());
        (next, if keep { kept.push(s.last()) } else { kept })
    }
}

proof fn lemma_scan_is_from_text(s: Seq<char>)
    ensures
        strip_scan(s) == strip_from(Strip::Text, s),
    decreases s.len(),
{
    if s.len() > 0 {
        lemma_scan_is_from_text(s.drop_last());
    }
}

proof fn lemma_strip_append(st: Strip, x: Seq<char>, y: Seq<char>)
    ensures
        strip_from(st, x + y) == (
            strip_from(strip_from(st, x).0, y).0,
            strip_from(st, x).1 + strip_from(strip_from(st, x).0, y).1,
        ),
    decreases y.len(),
{
    if y.len() == 0 {
        assert(x + y =~= x);
        assert(strip_from(st, x).1 + seq![] =~= strip_from(st, x).1);
    } else {
        assert((x + y).drop_last() =~= x + y.drop_last());
        assert((x + y).last() == y.last());
        lemma_strip_append(st, x, y.drop_last());
        let mid = strip_from(st, x);
        let rest = strip_from(mid.0, y.drop_last());
        assert(mid.1 + rest.1.push(y.last()) =~= (mid.1 + rest.1).push(y.last()));
    }
}

/// Whether `s` holds neither `ESC` nor `BEL`: text that cannot end an OSC early.
pub open spec fn osc_body(s: Seq<char>) -> bool {
    forall|i: int| 0 <= i < s.len() ==> s[i] != '\x1b' && s[i] != '\x07'
}

/// Whether `s` holds no ASCII letter: parameters that cannot end a CSI early.
pub open spec fn csi_params(s: Seq<char>) -> bool {
    forall|i: int| 0 <= i < s.len() ==> !spec_is_ascii_alphabetic(#[trigger] s[i])
}

proof fn lemma_strip_osc_body(s: Seq<char>)
    requires
        osc_body(s),
    ensures
        strip_from(Strip::Osc, s) == (Strip::Osc, Seq::<char>::empty()),
    decreases s.len(),
{
    if s.len() > 0 {
        assert(osc_body(s.drop_last())) by {
            assert forall|i: int| 0 <= i < s.drop_last().len() implies s.drop_last()[i] != '\x1b' && s.drop_last()[i] != '\x07' by {
                assert(s.drop_last()[i] == s[i]);
            }
        }
        assert(s[s.len() - 1] != '\x1b' && s[s.len() - 1] != '\x07');
        lemma_strip_osc_body(s.drop_last());
    }
}

proof fn lemma_strip_csi_params(s: Seq<char>)
    requires
        csi_params(s),
    ensures
        strip_from(Strip::Csi, s) == (Strip::Csi, Seq::<char>::empty()),
    decreases s.len(),
{
    if s.len() > 0 {
        assert(csi_params(s.drop_last())) by {
            assert forall|i: int| 0 <= i < s.drop_last().len() implies !spec_is_ascii_alphabetic(#[trigger] s.drop_last()[i]) by {
                assert(s.drop_last()[i] == s[i]);
            }
        }
        assert(!spec_is_ascii_alphabetic(s[s.len() - 1]));
        lemma_strip_csi_params(s.drop_last());
    }
}

/// An escape is taken out whole and nothing beside it: after plain text `a`, an OSC ended by
/// `BEL` or by `ESC \`, or a CSI ended by its letter, leaves exactly `a` and what stripping the
/// text after it leaves.
pub proof fn law_an_escape_is_removed_whole(a: Seq<char>, body: Seq<char>, fin: char, b: Seq<char>)
    requires
        no_escape(a),
    ensures
        osc_body(body) ==> strip_scan(a + (seq!['\x1b', ']'] + body + seq!['\x07']) + b).1
            == a + strip_scan(b).1,
        osc_body(body) ==> strip_scan(a + (seq!['\x1b', ']'] + body + seq!['\x1b', '\\']) + b).1
            == a + strip_scan(b).1,
        csi_params(body) && spec_is_ascii_alphabetic(fin) ==> strip_scan(
            a + (seq!['\x1b', '['] + body + seq![fin]) + b,
        ).1 == a + strip_scan(b).1,
{
    lemma_strip_kept(a);
    lemma_scan_is_from_text(a);
    lemma_scan_is_from_text(b);
    let open_osc = seq!['\x1b', ']'];
    let open_csi = seq!['\x1b', '['];
    assert(strip_from(Strip::Text, open_osc) == (Strip::Osc, Seq::<char>::empty())) by {
        reveal_with_fuel(strip_from, 3);
        assert(open_osc.drop_last() =~= seq!['\x1b']);
        assert(seq!['\x1b'].drop_last() =~= Seq::<char>::empty());
    }
    assert(strip_from(Strip::Text, open_csi) == (Strip::Csi, Seq::<char>::empty())) by {
        reveal_with_fuel(strip_from, 3);
        assert(open_csi.drop_last() =~= seq!['\x1b']);
        assert(seq!['\x1b'].drop_last() =~= Seq::<char>::empty());
    }
    if osc_body(body) {
        lemma_strip_osc_body(body);
        lemma_strip_append(Strip::Text, open_osc, body);
        assert(Seq::<char>::empty() + Seq::<char>::empty() =~= Seq::<char>::empty());
        let bel = seq!['\x07'];
        let st = seq!['\x1b', '\\'];
        lemma_strip_append(Strip::Text, open_osc + body, bel);
        lemma_strip_append(Strip::Text, open_osc + body, st);
        assert(strip_from(Strip::Osc, bel) == (Strip::Text, Seq::<char>::empty())) by {
            reveal_with_fuel(strip_from, 2);
            assert(bel.drop_last() =~= Seq::<char>::empty());
        }
        assert(strip_from(Strip::Osc, st) == (Strip::Text, Seq::<char>::empty())) by {
            reveal_with_fuel(strip_from, 3);
            assert(st.drop_last() =~= seq!['\x1b']);
            assert(seq!['\x1b'].drop_last() =~= Seq::<char>::empty());
        }
        let e1 = open_osc + body + bel;
        let e2 = open_osc + body + st;
        lemma_strip_append(Strip::Text, a, e1);
        lemma_strip_append(Strip::Text, a + e1, b);
        lemma_strip_append(Strip::Text, a, e2);
        lemma_strip_append(Strip::Text, a + e2, b);
        lemma_scan_is_from_text(a + e1 + b);
        lemma_scan_is_from_text(a + e2 + b);
        assert(a + Seq::<char>::empty() =~= a);
    }
    if csi_params(body) && spec_is_ascii_alphabetic(fin) {
        lemma_strip_csi_params(body);
        lemma_strip_append(Strip::Text, open_csi, body);
        assert(Seq::<char>::empty() + Seq::<char>::empty() =~= Seq::<char>::empty());
        let f = seq![fin];
        lemma_strip_append(Strip::Text, open_csi + body, f);
        assert(strip_from(Strip::Csi, f) == (Strip::Text, Seq::<char>::empty())) by {
            reveal_with_fuel(strip_from, 2);
            assert(f.drop_last() =~= Seq::<char>::empty());
        }
        let e = open_csi + body + f;
        lemma_strip_append(Strip::Text, a, e);
        lemma_strip_append(Strip::Text, a + e, b);
        lemma_scan_is_from_text(a + e + b);
        assert(a + Seq::<char>::empty() =~= a);
    }
}

/// `s` with its CSI and OSC escapes removed: what a terminal would print, for measuring or for
/// comparing against text.
pub fn without_escapes(s: &str) -> (r: String)
    ensures
        r@ == strip_scan(s@).1,
        no_escape(r@),
        no_escape(s@) ==> r@ == s@,
{
    proof {
        lemma_strip_kept(s@);
    }
    let v = text::chars_of(s);
    let mut out: Vec<char> = Vec::new();
    let mut st = Strip::Text;
    let mut i: usize = 0;
    while i < v.len()
        invariant
            i <= v.len(),
            v@ == s@,
            strip_scan(v@.subrange(0, i as int)) == (st, out@),
        decreases v.len() - i,
    {
        let c = v[i];
        proof {
            assert(v@.subrange(0, i + 1).drop_last() =~= v@.subrange(0, i as int));
        }
        let is_alpha = 'a' <= c && c <= 'z' || 'A' <= c && c <= 'Z';
        st = match st {
            Strip::Text => {
                if c == '\x1b' {
                    Strip::Esc
                } else {
                    out.push(c);
                    Strip::Text
                }
            },
            Strip::Esc => {
                if c == '[' {
                    Strip::Csi
                } else if c == ']' {
                    Strip::Osc
                } else {
                    Strip::Text
                }
            },
            Strip::Csi => {
                if is_alpha {
                    Strip::Text
                } else {
                    Strip::Csi
                }
            },
            Strip::Osc => {
                if c == '\x07' {
                    Strip::Text
                } else if c == '\x1b' {
                    Strip::OscEsc
                } else {
                    Strip::Osc
                }
            },
            Strip::OscEsc => Strip::Text,
        };
        i += 1;
    }
    assert(v@.subrange(0, v@.len() as int) =~= v@);
    text::string_of(out.as_slice())
}

} // verus!
