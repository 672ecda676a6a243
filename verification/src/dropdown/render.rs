//! Painting the dropdown: one string of escapes, plus the number of rows to walk back up.
//!
//! The row count is the load-bearing half: it is what the selection loop feeds to `ESC [ n A`,
//! so it is counted in physical rows, the rows the terminal really used after wrapping.

use vstd::prelude::*;
use vstd::string::StringSliceAdditionalSpecFns;
use super::{CompletionCandidate, MAX_ROWS, kind_view, spec_badge};
use super::layout::{
    DropdownLayout, OVERHEAD_NO_DESC, OVERHEAD_WITH_DESC, candidate_fits, compute_layout, max_badge, max_desc,
    max_label, spec_layout,
};
use crate::settings::{Completion, default_completion};
use super::width::{
    FALLBACK_COLS, adds, lemma_adds_concat, lemma_escape_adds, lemma_pad_truncate_plain, lemma_plain_adds,
    lemma_plain_concat, lemma_scan_is_run, lemma_sum_spaces, lemma_sum_widths_concat, one_escape, pad_chars,
    physical_rows, plain, spec_display_width, spec_pad, spec_physical_rows, spec_truncate, sum_widths,
    truncate_chars, width_run, WidthState,
};
use crate::text::{self, fits, lowercase, utf8_bytes};

verus! {

/// The typed text lowered the way `char::to_lowercase` lowers it, one character at a time.
pub open spec fn flat_lower(t: Seq<char>) -> Seq<char>
    decreases t.len(),
{
    if t.len() == 0 {
        seq![]
    } else {
        flat_lower(t.drop_last()) + lowercase(t.last())
    }
}

/// Walking `label` from character `i` against the lowered typed text still to cover, `rest`:
/// the number of label characters that cover it exactly, or 0 when a character's lowering
/// departs from it or the label runs out first.
pub open spec fn prefix_walk(label: Seq<char>, i: nat, rest: Seq<char>) -> nat
    decreases label.len() - i,
{
    if i >= label.len() {
        0
    } else {
        let low = lowercase(label[i as int]);
        if low.len() <= rest.len() && rest.subrange(0, low.len() as int) == low {
            let rest2 = rest.subrange(low.len() as int, rest.len() as int);
            if rest2.len() == 0 {
                i + 1
            } else {
                prefix_walk(label, i + 1, rest2)
            }
        } else {
            0
        }
    }
}

/// How many characters of `label` the typed text is a case-insensitive prefix of, or 0.
pub open spec fn spec_prefix_chars(label: Seq<char>, typed: Seq<char>) -> nat {
    if typed.len() == 0 {
        0
    } else {
        prefix_walk(label, 0, flat_lower(typed))
    }
}

/// How many bytes of `label` the typed text covers, or 0 when it is not a prefix of it.
pub open spec fn spec_matching_prefix(label: Seq<char>, typed: Seq<char>) -> nat {
    utf8_bytes(label.subrange(0, spec_prefix_chars(label, typed) as int))
}

proof fn lemma_walk_bound(label: Seq<char>, i: nat, rest: Seq<char>)
    ensures
        prefix_walk(label, i, rest) <= label.len(),
        prefix_walk(label, i, rest) == 0 || prefix_walk(label, i, rest) > i,
    decreases label.len() - i,
{
    if i < label.len() {
        let low = lowercase(label[i as int]);
        if low.len() <= rest.len() && rest.subrange(0, low.len() as int) == low {
            let rest2 = rest.subrange(low.len() as int, rest.len() as int);
            if rest2.len() != 0 {
                lemma_walk_bound(label, i + 1, rest2);
            }
        }
    }
}

/// The typed text lowered, character by character.
fn lower_all(t: &[char]) -> (r: Vec<char>)
    ensures
        r@ == flat_lower(t@),
{
    let mut r: Vec<char> = Vec::new();
    let mut i: usize = 0;
    while i < t.len()
        invariant
            i <= t.len(),
            r@ == flat_lower(t@.subrange(0, i as int)),
        decreases t.len() - i,
    {
        let low = text::to_lowercase(t[i]);
        let ghost before = r@;
        let mut k: usize = 0;
        while k < low.len()
            invariant
                k <= low@.len(),
                r@ == before + low@.subrange(0, k as int),
            decreases low.len() - k,
        {
            r.push(low[k]);
            k += 1;
            assert(r@ =~= before + low@.subrange(0, k as int));
        }
        proof {
            let s = t@.subrange(0, i + 1);
            assert(s.drop_last() =~= t@.subrange(0, i as int));
            assert(s.last() == t@[i as int]);
            assert(low@.subrange(0, k as int) =~= low@);
        }
        i += 1;
    }
    assert(t@.subrange(0, t@.len() as int) =~= t@);
    r
}

/// Whether `low` is what `tl` holds from `pos` on, for its whole length.
fn covers(tl: &[char], pos: usize, low: &[char]) -> (r: bool)
    requires
        pos <= tl@.len(),
    ensures
        r == (low@.len() <= tl@.len() - pos && tl@.subrange(pos as int, pos + low@.len()) == low@),
{
    let n = tl.len();
    if low.len() > n - pos {
        return false;
    }
    let mut k: usize = 0;
    while k < low.len()
        invariant
            k <= low@.len(),
            pos <= tl@.len(),
            n == tl@.len(),
            low@.len() <= tl@.len() - pos,
            forall|j: int| 0 <= j < k ==> tl@[pos + j] == low@[j],
        decreases low.len() - k,
    {
        if tl[pos + k] != low[k] {
            assert(tl@.subrange(pos as int, pos + low@.len())[k as int] != low@[k as int]);
            return false;
        }
        k += 1;
    }
    assert(tl@.subrange(pos as int, pos + low@.len()) =~= low@);
    true
}

/// How many characters of `label` the typed text covers, compared lowercased; 0 when it is not
/// a prefix.
pub fn matching_prefix_chars(label: &[char], typed: &[char]) -> (r: usize)
    ensures
        r == spec_prefix_chars(label@, typed@),
        r <= label@.len(),
{
    proof {
        lemma_walk_bound(label@, 0, flat_lower(typed@));
    }
    if typed.len() == 0 {
        return 0;
    }
    let tl = lower_all(typed);
    let ghost target = prefix_walk(label@, 0, tl@);
    let n = tl.len();
    let mut pos: usize = 0;
    let mut i: usize = 0;
    assert(tl@.subrange(0, tl@.len() as int) =~= tl@);
    while i < label.len()
        invariant
            i <= label@.len(),
            pos <= tl@.len(),
            n == tl@.len(),
            typed@.len() > 0,
            tl@ == flat_lower(typed@),
            target == prefix_walk(label@, 0, tl@),
            target == prefix_walk(label@, i as nat, tl@.subrange(pos as int, tl@.len() as int)),
            target <= label@.len(),
        decreases label.len() - i,
    {
        let low = text::to_lowercase(label[i]);
        let ghost rest = tl@.subrange(pos as int, tl@.len() as int);
        let fits_here = covers(tl.as_slice(), pos, low.as_slice());
        assert(low@ == lowercase(label@[i as int]));
        if !fits_here {
            assert(!(low@.len() <= rest.len() && rest.subrange(0, low@.len() as int) == low@)) by {
                if low@.len() <= rest.len() {
                    assert(rest.subrange(0, low@.len() as int) =~= tl@.subrange(pos as int, pos + low@.len()));
                }
            }
            assert(target == 0);
            return 0;
        }
        assert(low@.len() <= tl@.len() - pos);
        assert(rest.subrange(0, low@.len() as int) =~= tl@.subrange(pos as int, pos + low@.len()));
        assert(rest.subrange(low@.len() as int, rest.len() as int)
            =~= tl@.subrange(pos + low@.len(), tl@.len() as int));
        pos = pos + low.len();
        if pos == n {
            return i + 1;
        }
        i += 1;
    }
    0
}

/// How many bytes of `label` the typed text covers, compared case-insensitively, or 0 when it is
/// not a prefix; the count always lands on a character boundary.
pub fn matching_prefix(label: &str, typed: &str) -> (r: usize)
    ensures
        r == spec_matching_prefix(label@, typed@),
{
    let cs = text::chars_of(label);
    let ts = text::chars_of(typed);
    let k = matching_prefix_chars(cs.as_slice(), ts.as_slice());
    let total = label.as_bytes().len();
    let mut acc: usize = 0;
    let mut j: usize = 0;
    assert(cs@.subrange(0, 0) =~= Seq::<char>::empty());
    while j < k
        invariant
            j <= k,
            k <= cs@.len(),
            cs@ == label@,
            total == utf8_bytes(cs@),
            acc == utf8_bytes(cs@.subrange(0, j as int)),
        decreases k - j,
    {
        proof {
            text::lemma_utf8_push(cs@.subrange(0, j as int), cs@[j as int]);
            assert(cs@.subrange(0, j as int).push(cs@[j as int]) =~= cs@.subrange(0, j + 1));
            text::lemma_utf8_prefix(cs@, j + 1);
        }
        acc = acc + text::char_utf8_len(cs[j]);
        j += 1;
    }
    acc
}


/// What a stretch of a row is painted with. Every stretch carries the row's background, which is
/// all that marks the menu out: dark slate for a row, indigo for the selected one.
#[derive(Clone, Copy)]
pub enum Ink {
    /// The selection marker.
    Marker,
    /// A label, past the part already typed.
    Text,
    /// The part of a label that was already typed.
    Match,
    /// A description.
    Description,
    /// Gaps between the columns.
    Blank,
    /// A kind badge: a pill of its own colour, the same on every row.
    Badge,
}

/// The SGR sequence that opens a stretch in `ink`, on a selected row or an ordinary one.
pub open spec fn spec_sgr(ink: Ink, selected: bool) -> Seq<char> {
    if selected {
        match ink {
            Ink::Marker => "\x1b[1;97;48;5;62m"@,
            Ink::Text => "\x1b[1;97;48;5;62m"@,
            Ink::Match => "\x1b[1;93;48;5;62m"@,
            Ink::Description => "\x1b[36;48;5;62m"@,
            Ink::Blank => "\x1b[48;5;62m"@,
            Ink::Badge => "\x1b[1;30;48;5;110m"@,
        }
    } else {
        match ink {
            Ink::Marker => "\x1b[1;97;48;5;236m"@,
            Ink::Text => "\x1b[37;48;5;236m"@,
            Ink::Match => "\x1b[1;93;48;5;236m"@,
            Ink::Description => "\x1b[38;5;245;48;5;236m"@,
            Ink::Blank => "\x1b[48;5;236m"@,
            Ink::Badge => "\x1b[1;30;48;5;110m"@,
        }
    }
}

fn sgr(ink: Ink, selected: bool) -> (r: &'static str)
    ensures
        r@ == spec_sgr(ink, selected),
{
    if selected {
        match ink {
            Ink::Marker => "\x1b[1;97;48;5;62m",
            Ink::Text => "\x1b[1;97;48;5;62m",
            Ink::Match => "\x1b[1;93;48;5;62m",
            Ink::Description => "\x1b[36;48;5;62m",
            Ink::Blank => "\x1b[48;5;62m",
            Ink::Badge => "\x1b[1;30;48;5;110m",
        }
    } else {
        match ink {
            Ink::Marker => "\x1b[1;97;48;5;236m",
            Ink::Text => "\x1b[37;48;5;236m",
            Ink::Match => "\x1b[1;93;48;5;236m",
            Ink::Description => "\x1b[38;5;245;48;5;236m",
            Ink::Blank => "\x1b[48;5;236m",
            Ink::Badge => "\x1b[1;30;48;5;110m",
        }
    }
}

/// `t` painted in `ink`, and the attributes reset after it.
pub open spec fn spec_paint(ink: Ink, selected: bool, t: Seq<char>) -> Seq<char> {
    spec_sgr(ink, selected) + t + "\x1b[0m"@
}

fn paint(out: &mut String, ink: Ink, selected: bool, t: &str)
    ensures
        final(out)@ == old(out)@ + spec_paint(ink, selected, t@),
{
    let open = sgr(ink, selected);
    text::push_str(out, open);
    text::push_str(out, t);
    text::push_str(out, "\x1b[0m");
    assert(final(out)@ =~= old(out)@ + spec_paint(ink, selected, t@));
}

/// `n` spaces.
pub open spec fn spaces(n: nat) -> Seq<char> {
    Seq::new(n, |_i: int| ' ')
}

fn push_spaces(out: &mut String, n: usize)
    ensures
        final(out)@ == old(out)@ + spaces(n as nat),
{
    let ghost start = out@;
    let mut k: usize = 0;
    while k < n
        invariant
            k <= n,
            out@ == start + spaces(k as nat),
        decreases n - k,
    {
        text::push_char(out, ' ');
        k += 1;
        assert(out@ =~= start + spaces(k as nat));
    }
}

/// The marker column: an arrow on the selected row, blank elsewhere.
pub open spec fn marker(selected: bool) -> Seq<char> {
    if selected { " \u{25b6} "@ } else { "   "@ }
}

/// `t` cut to `w` cells and padded back out to exactly `w`.
#[verifier::opaque]
pub open spec fn padded(t: Seq<char>, w: nat) -> Seq<char> {
    spec_pad(spec_truncate(t, w), w)
}

fn padded_chars(t: &[char], w: usize) -> (r: Vec<char>)
    requires
        fits(t@),
    ensures
        r@ == padded(t@, w as nat),
{
    let cut = truncate_chars(t, w);
    let r = pad_chars(cut.as_slice(), w);
    proof {
        reveal(padded);
    }
    r
}

/// A label with the part already typed in the match colour and the rest in the row's text
/// colour; a label the typed text is not a prefix of is painted whole.
pub open spec fn spec_paint_label(label: Seq<char>, typed: Seq<char>, selected: bool) -> Seq<char> {
    let k = spec_prefix_chars(label, typed);
    if k == 0 {
        spec_paint(Ink::Text, selected, label)
    } else {
        spec_paint(Ink::Match, selected, label.subrange(0, k as int)) + spec_paint(
            Ink::Text,
            selected,
            label.subrange(k as int, label.len() as int),
        )
    }
}

fn paint_label(out: &mut String, label: &[char], typed: &[char], selected: bool)
    ensures
        final(out)@ == old(out)@ + spec_paint_label(label@, typed@, selected),
{
    let k = matching_prefix_chars(label, typed);
    if k == 0 {
        let whole = text::string_of(label);
        paint(out, Ink::Text, selected, whole.as_str());
    } else {
        let ghost start = out@;
        let head = text::slice_vec(label, 0, k);
        let tail = text::slice_vec(label, k, label.len());
        let head = text::string_of(head.as_slice());
        let tail = text::string_of(tail.as_slice());
        paint(out, Ink::Match, selected, head.as_str());
        paint(out, Ink::Text, selected, tail.as_str());
        assert(out@ =~= start + spec_paint_label(label@, typed@, selected));
    }
}

/// The text of a candidate's description, empty when it has none.
pub open spec fn desc_text(c: CompletionCandidate) -> Seq<char> {
    match c.description {
        Some(d) => d@,
        None => seq![],
    }
}

/// The badge cell of a candidate, exactly `w` cells: its word cut and padded to the pill's
/// inside with a cell either side, or blank for a candidate with no kind, so the description
/// column starts in the same place on every row.
pub open spec fn spec_badge_cell(c: CompletionCandidate, w: nat, selected: bool) -> Seq<char> {
    match spec_badge(kind_view(c.kind)) {
        None => spaces(w),
        Some(word) => spec_paint(
            Ink::Badge,
            selected,
            " "@ + padded(word, (if w >= 2 { w - 2 } else { 0 }) as nat) + " "@,
        ),
    }
}

fn render_badge(out: &mut String, c: &CompletionCandidate, w: usize, selected: bool)
    requires
        candidate_fits(*c),
    ensures
        final(out)@ == old(out)@ + spec_badge_cell(*c, w as nat, selected),
{
    proof {
        super::layout::lemma_badge_word_fits(*c);
    }
    match c.badge() {
        None => push_spaces(out, w),
        Some(word) => {
            let inner = if w >= 2 {
                w - 2
            } else {
                0
            };
            let cs = text::chars_of(word.as_str());
            let p = padded_chars(cs.as_slice(), inner);
            let mut pill: Vec<char> = Vec::new();
            pill.push(' ');
            let mut k: usize = 0;
            while k < p.len()
                invariant
                    k <= p@.len(),
                    pill@ == seq![' '] + p@.subrange(0, k as int),
                decreases p.len() - k,
            {
                pill.push(p[k]);
                k += 1;
                assert(pill@ =~= seq![' '] + p@.subrange(0, k as int));
            }
            pill.push(' ');
            proof {
                reveal_strlit(" ");
                assert(p@.subrange(0, p@.len() as int) =~= p@);
                assert(pill@ =~= " "@ + p@ + " "@);
            }
            let pill = text::string_of(pill.as_slice());
            paint(out, Ink::Badge, selected, pill.as_str());
        },
    }
}

/// The start of a row: a fresh line, the indent, the marker and the label.
pub open spec fn spec_row_head(c: CompletionCandidate, selected: bool, l: DropdownLayout, typed: Seq<char>) -> Seq<char> {
    "\r\n"@ + spaces(l.indent as nat) + spec_paint(Ink::Marker, selected, marker(selected))
        + spec_paint_label(padded(c.display@, l.label_w as nat), typed, selected)
}

/// The badge column with the gap before it, when the layout has one and badges are shown.
pub open spec fn spec_row_badge(c: CompletionCandidate, selected: bool, l: DropdownLayout, show_kind: bool) -> Seq<char> {
    if l.badge_w > 0 && show_kind {
        spec_paint(Ink::Blank, selected, " "@) + spec_badge_cell(c, l.badge_w as nat, selected)
    } else {
        seq![]
    }
}

/// The description column with the gap before it, when the layout has one and descriptions
/// are shown.
pub open spec fn spec_row_desc(c: CompletionCandidate, selected: bool, l: DropdownLayout, descriptions: bool) -> Seq<char> {
    if l.desc_w > 0 && descriptions {
        spec_paint(Ink::Blank, selected, "  "@) + spec_paint(
            Ink::Description,
            selected,
            padded(desc_text(c), l.desc_w as nat),
        )
    } else {
        seq![]
    }
}

/// One row of the menu: a fresh line, the indent, the marker, the label, the badge when the
/// layout has a column for it and badges are shown, the description when the layout has a
/// column for it and descriptions are shown, a closing cell, and a clear to the end of the line.
pub open spec fn spec_row(
    c: CompletionCandidate,
    selected: bool,
    l: DropdownLayout,
    typed: Seq<char>,
    show_kind: bool,
    descriptions: bool,
) -> Seq<char> {
    spec_row_head(c, selected, l, typed) + spec_row_badge(c, selected, l, show_kind) + spec_row_desc(
        c,
        selected,
        l,
        descriptions,
    ) + spec_paint(Ink::Blank, selected, " "@) + "\x1b[K"@
}

fn render_head(out: &mut String, c: &CompletionCandidate, selected: bool, l: &DropdownLayout, typed: &[char])
    requires
        candidate_fits(*c),
    ensures
        final(out)@ == old(out)@ + spec_row_head(*c, selected, *l, typed@),
{
    let ghost start = out@;
    text::push_str(out, "\r\n");
    push_spaces(out, l.indent);
    let m = if selected { " \u{25b6} " } else { "   " };
    paint(out, Ink::Marker, selected, m);
    let shown = text::chars_of(c.display.as_str());
    let label = padded_chars(shown.as_slice(), l.label_w);
    paint_label(out, label.as_slice(), typed, selected);
    assert(out@ =~= start + spec_row_head(*c, selected, *l, typed@));
}

fn render_badge_column(out: &mut String, c: &CompletionCandidate, selected: bool, l: &DropdownLayout, show_kind: bool)
    requires
        candidate_fits(*c),
    ensures
        final(out)@ == old(out)@ + spec_row_badge(*c, selected, *l, show_kind),
{
    let ghost start = out@;
    if l.badge_w > 0 && show_kind {
        paint(out, Ink::Blank, selected, " ");
        render_badge(out, c, l.badge_w, selected);
    }
    assert(out@ =~= start + spec_row_badge(*c, selected, *l, show_kind));
}

fn render_desc_column(out: &mut String, c: &CompletionCandidate, selected: bool, l: &DropdownLayout, descriptions: bool)
    requires
        candidate_fits(*c),
    ensures
        final(out)@ == old(out)@ + spec_row_desc(*c, selected, *l, descriptions),
{
    let ghost start = out@;
    if l.desc_w > 0 && descriptions {
        paint(out, Ink::Blank, selected, "  ");
        let d = match &c.description {
            Some(d) => text::chars_of(d.as_str()),
            None => Vec::new(),
        };
        assert(d@ == desc_text(*c));
        let dp = padded_chars(d.as_slice(), l.desc_w);
        let ds = text::string_of(dp.as_slice());
        paint(out, Ink::Description, selected, ds.as_str());
    }
    assert(out@ =~= start + spec_row_desc(*c, selected, *l, descriptions));
}

fn render_row(
    out: &mut String,
    c: &CompletionCandidate,
    selected: bool,
    l: &DropdownLayout,
    typed: &[char],
    show_kind: bool,
    descriptions: bool,
)
    requires
        candidate_fits(*c),
    ensures
        final(out)@ == old(out)@ + spec_row(*c, selected, *l, typed@, show_kind, descriptions),
{
    let ghost start = out@;
    render_head(out, c, selected, l, typed);
    render_badge_column(out, c, selected, l, show_kind);
    render_desc_column(out, c, selected, l, descriptions);
    paint(out, Ink::Blank, selected, " ");
    text::push_str(out, "\x1b[K");
    assert(out@ =~= start + spec_row(*c, selected, *l, typed@, show_kind, descriptions));
}

/// The rows for the visible candidates `vis`, the first of which is candidate `first` of the
/// whole list; the row of candidate `sel` is drawn selected.
pub open spec fn spec_rows(
    vis: Seq<CompletionCandidate>,
    first: nat,
    sel: nat,
    l: DropdownLayout,
    typed: Seq<char>,
    show_kind: bool,
    descriptions: bool,
) -> Seq<char>
    decreases vis.len(),
{
    if vis.len() == 0 {
        seq![]
    } else {
        spec_rows(vis.drop_last(), first, sel, l, typed, show_kind, descriptions) + spec_row(
            vis.last(),
            first + vis.len() - 1 == sel,
            l,
            typed,
            show_kind,
            descriptions,
        )
    }
}

/// How many candidates a page shows: what was asked for, between one and [`MAX_ROWS`].
pub open spec fn shown_per_page(max_visible: nat) -> nat {
    if max_visible < 1 {
        1
    } else if max_visible > MAX_ROWS {
        MAX_ROWS as nat
    } else {
        max_visible
    }
}

/// The first candidate of the page the selection is on.
pub open spec fn page_start(selected: nat, max_visible: nat) -> nat {
    (selected / shown_per_page(max_visible)) * shown_per_page(max_visible)
}

/// One past the last candidate of that page.
pub open spec fn page_end(selected: nat, max_visible: nat, len: nat) -> nat {
    let e = page_start(selected, max_visible) + shown_per_page(max_visible);
    if e < len { e } else { len }
}

/// The cells a drawn row takes: the indent, the marker, the label, the badge and the
/// description with the gaps before them where they are drawn, and the closing cell.
pub open spec fn drawn_width(l: DropdownLayout, show_kind: bool, descriptions: bool) -> nat {
    (l.indent + 3 + l.label_w + (if l.badge_w > 0 && show_kind { 1 + l.badge_w } else { 0 })
        + (if l.desc_w > 0 && descriptions { 2 + l.desc_w } else { 0 }) + 1) as nat
}

/// What rendering `cands` with `selected` chosen produces under the completion settings `s`:
/// the rows of the selection's page, laid out for that page on a `cols`-wide terminal (0 read
/// as [`FALLBACK_COLS`]), and the physical rows they take once the terminal has wrapped them.
pub open spec fn spec_render(
    cands: Seq<CompletionCandidate>,
    selected: nat,
    max_visible: nat,
    indent_cols: nat,
    cols: nat,
    typed: Seq<char>,
    s: Completion,
) -> (Seq<char>, nat) {
    if cands.len() == 0 {
        (seq![], 0)
    } else {
        let first = page_start(selected, max_visible);
        let vis = cands.subrange(first as int, page_end(selected, max_visible, cands.len()) as int);
        let c = if cols == 0 { FALLBACK_COLS as nat } else { cols };
        let l = spec_layout(max_label(vis) as int, max_desc(vis) as int, max_badge(vis) as int, indent_cols as int, c as int);
        (
            spec_rows(vis, first, selected, l, typed, s.show_kind, s.descriptions),
            vis.len() * spec_physical_rows(drawn_width(l, s.show_kind, s.descriptions), c),
        )
    }
}

/// Render the dropdown into a `cols`-wide terminal (0 meaning unknown) with the default
/// completion settings, which draw both the badges and the descriptions: the escape-laden
/// string to write and the number of physical rows it occupies, the count to feed to
/// `ESC [ n A`.
pub fn render_vertical_dropdown_at_width(
    candidates: &[CompletionCandidate],
    selected_idx: usize,
    max_visible: usize,
    indent_cols: usize,
    cols: usize,
    typed: &str,
) -> (r: (String, usize))
    requires
        forall|i: int| 0 <= i < candidates@.len() ==> candidate_fits(#[trigger] candidates@[i]),
        candidates@.len() == 0 || page_start(selected_idx as nat, max_visible as nat) <= candidates@.len(),
    ensures
        r.0@ == spec_render(
            candidates@, selected_idx as nat, max_visible as nat, indent_cols as nat, cols as nat, typed@,
            default_completion(),
        ).0,
        r.1 == spec_render(
            candidates@, selected_idx as nat, max_visible as nat, indent_cols as nat, cols as nat, typed@,
            default_completion(),
        ).1,
{
    let settings = Completion::default();
    render_vertical_dropdown_with(candidates, selected_idx, max_visible, indent_cols, cols, typed, &settings)
}

/// Render the dropdown into a `cols`-wide terminal (0 meaning unknown) under the completion
/// settings `settings`, which say whether the badge and description columns are drawn: the
/// escape-laden string to write and the number of physical rows it occupies.
///
/// The list pages: only the page holding the selection is drawn.
#[verifier::rlimit(40)]
pub fn render_vertical_dropdown_with(
    candidates: &[CompletionCandidate],
    selected_idx: usize,
    max_visible: usize,
    indent_cols: usize,
    cols: usize,
    typed: &str,
    settings: &Completion,
) -> (r: (String, usize))
    requires
        forall|i: int| 0 <= i < candidates@.len() ==> candidate_fits(#[trigger] candidates@[i]),
        candidates@.len() == 0 || page_start(selected_idx as nat, max_visible as nat) <= candidates@.len(),
    ensures
        r.0@ == spec_render(
            candidates@, selected_idx as nat, max_visible as nat, indent_cols as nat, cols as nat, typed@, *settings,
        ).0,
        r.1 == spec_render(
            candidates@, selected_idx as nat, max_visible as nat, indent_cols as nat, cols as nat, typed@, *settings,
        ).1,
{
    if candidates.len() == 0 {
        return (String::new(), 0);
    }
    let show_kind = settings.show_kind;
    let descriptions = settings.descriptions;
    let mv: usize = if max_visible < 1 {
        1
    } else if max_visible > MAX_ROWS {
        MAX_ROWS
    } else {
        max_visible
    };
    proof {
        assert((selected_idx / mv) * mv <= selected_idx) by (nonlinear_arith)
            requires
                mv > 0,
        ;
    }
    let start = (selected_idx / mv) * mv;
    let n = candidates.len();
    let end = if n - start > mv {
        start + mv
    } else {
        n
    };
    let visible = &candidates[start..end];
    assert(visible@.len() <= 8);
    let cols = if cols == 0 {
        FALLBACK_COLS
    } else {
        cols
    };
    let layout = compute_layout(visible, indent_cols, cols);
    let ts = text::chars_of(typed);
    let mut out = String::new();
    let mut i: usize = 0;
    while i < visible.len()
        invariant
            i <= visible@.len(),
            start + visible@.len() <= n,
            forall|k: int| 0 <= k < visible@.len() ==> candidate_fits(#[trigger] visible@[k]),
            out@ == spec_rows(
                visible@.subrange(0, i as int), start as nat, selected_idx as nat, layout, ts@, show_kind,
                descriptions,
            ),
        decreases visible.len() - i,
    {
        let selected = start + i == selected_idx;
        render_row(&mut out, &visible[i], selected, &layout, ts.as_slice(), show_kind, descriptions);
        proof {
            let s = visible@.subrange(0, i + 1);
            assert(s.drop_last() =~= visible@.subrange(0, i as int));
            assert(s.last() == visible@[i as int]);
        }
        i += 1;
    }
    assert(visible@.subrange(0, visible@.len() as int) =~= visible@);
    proof {
        super::layout::lemma_max_bounds(visible@);
        super::layout::lemma_row_width_bound(
            max_label(visible@), max_desc(visible@), max_badge(visible@), indent_cols as nat, cols as nat,
        );
    }
    let lines = rows_taken(&layout, cols, visible.len(), show_kind, descriptions);
    (out, lines)
}

/// The physical rows `n` drawn rows of layout `l` take on a `cols`-wide terminal.
fn rows_taken(l: &DropdownLayout, cols: usize, n: usize, show_kind: bool, descriptions: bool) -> (r: usize)
    requires
        n <= 8,
        cols >= 1,
        l.indent + l.box_w <= (if cols >= 9 { cols as int } else { 9 }),
        l.box_w == l.label_w + l.desc_w + (if l.desc_w > 0 { OVERHEAD_WITH_DESC } else { OVERHEAD_NO_DESC })
            + (if l.badge_w > 0 { l.badge_w + 1 } else { 0 }),
    ensures
        r == n * spec_physical_rows(drawn_width(*l, show_kind, descriptions), cols as nat),
{
    let badge: usize = if l.badge_w > 0 && show_kind {
        1 + l.badge_w
    } else {
        0
    };
    let gap: usize = if l.desc_w > 0 && descriptions {
        2 + l.desc_w
    } else {
        0
    };
    let width = l.indent + 3 + l.label_w + badge + gap + 1;
    let per_row = physical_rows(width, cols);
    proof {
        assert(per_row <= 9) by (nonlinear_arith)
            requires
                per_row == spec_physical_rows(width as nat, cols as nat),
                width <= (if cols >= 9 { cols as int } else { 9 }),
                cols >= 1,
        ;
        assert(n * per_row <= 72) by (nonlinear_arith)
            requires
                per_row <= 9,
                n <= 8,
        ;
    }
    n * per_row
}

/// On a terminal with room for the smallest box (0 read as [`FALLBACK_COLS`]) nothing wraps,
/// whatever the settings draw, so the count to walk back up is exactly the number of
/// candidates drawn on the page.
pub proof fn law_nothing_wraps_when_the_box_fits(
    cands: Seq<CompletionCandidate>,
    selected: nat,
    max_visible: nat,
    indent_cols: nat,
    cols: nat,
    typed: Seq<char>,
    s: Completion,
)
    requires
        forall|i: int| 0 <= i < cands.len() ==> candidate_fits(#[trigger] cands[i]),
        cands.len() > 0,
        page_start(selected, max_visible) <= cands.len(),
        cols == 0 || cols >= super::layout::MIN_LABEL_COLS + OVERHEAD_NO_DESC,
        cols <= usize::MAX / 4,
    ensures
        spec_render(cands, selected, max_visible, indent_cols, cols, typed, s).1
            == page_end(selected, max_visible, cands.len()) - page_start(selected, max_visible),
{
    let first = page_start(selected, max_visible);
    let vis = cands.subrange(first as int, page_end(selected, max_visible, cands.len()) as int);
    let c = if cols == 0 { FALLBACK_COLS as nat } else { cols };
    assert forall|i: int| 0 <= i < vis.len() implies candidate_fits(#[trigger] vis[i]) by {
        assert(candidate_fits(cands[first + i]));
    }
    super::layout::lemma_max_bounds(vis);
    super::layout::lemma_row_width_bound(max_label(vis), max_desc(vis), max_badge(vis), indent_cols, c);
    super::layout::law_rows_fit_the_terminal(max_label(vis), max_desc(vis), max_badge(vis), indent_cols, c);
    let l = spec_layout(max_label(vis) as int, max_desc(vis) as int, max_badge(vis) as int, indent_cols as int, c as int);
    let w = drawn_width(l, s.show_kind, s.descriptions);
    assert(1 <= w <= c);
    assert((w - 1) as nat / c == 0) by (nonlinear_arith)
        requires
            1 <= w <= c,
    ;
    assert(spec_physical_rows(w, c) == 1);
}

/// Whether a candidate's texts are plain: no escape and no `U+FE0F` in its label, its
/// description or its kind.
pub open spec fn candidate_plain(c: CompletionCandidate) -> bool {
    &&& plain(c.display@)
    &&& c.description matches Some(d) ==> plain(d@)
    &&& c.kind matches Some(k) ==> plain(k@)
}

proof fn lemma_sgr_escapes(ink: Ink, selected: bool)
    ensures
        one_escape(spec_sgr(ink, selected)),
        one_escape("\x1b[0m"@),
        one_escape("\x1b[K"@),
{
    reveal_strlit("\x1b[1;97;48;5;62m");
    reveal_strlit("\x1b[1;93;48;5;62m");
    reveal_strlit("\x1b[36;48;5;62m");
    reveal_strlit("\x1b[48;5;62m");
    reveal_strlit("\x1b[1;30;48;5;110m");
    reveal_strlit("\x1b[1;97;48;5;236m");
    reveal_strlit("\x1b[37;48;5;236m");
    reveal_strlit("\x1b[1;93;48;5;236m");
    reveal_strlit("\x1b[38;5;245;48;5;236m");
    reveal_strlit("\x1b[48;5;236m");
    reveal_strlit("\x1b[0m");
    reveal_strlit("\x1b[K");
    let e = spec_sgr(ink, selected);
    assert forall|i: int| 1 <= i < e.len() - 1 implies !crate::text::spec_is_ascii_alphabetic(#[trigger] e[i]) by {
        assert(e[i] == '[' || e[i] == ';' || ('0' <= e[i] <= '9'));
    }
}

/// Painting plain text adds its cells and nothing else.
proof fn lemma_paint_adds(ink: Ink, selected: bool, t: Seq<char>)
    requires
        plain(t),
    ensures
        adds(spec_paint(ink, selected, t), sum_widths(t)),
{
    lemma_sgr_escapes(ink, selected);
    lemma_escape_adds(spec_sgr(ink, selected));
    lemma_escape_adds("\x1b[0m"@);
    lemma_plain_adds(t);
    lemma_adds_concat(spec_sgr(ink, selected), 0, t, sum_widths(t));
    lemma_adds_concat(spec_sgr(ink, selected) + t, sum_widths(t), "\x1b[0m"@, 0);
}

proof fn lemma_plain_text(t: Seq<char>)
    requires
        forall|i: int| 0 <= i < t.len() ==> #[trigger] t[i] != '\x1b' && t[i] != '\u{fe0f}',
    ensures
        plain(t),
{
}

proof fn lemma_spaces_adds(n: nat)
    ensures
        plain(spaces(n)),
        sum_widths(spaces(n)) == n,
        adds(spaces(n), n),
{
    lemma_sum_spaces(n);
    assert(spaces(n) =~= Seq::new(n, |_i: int| ' '));
    lemma_plain_adds(spaces(n));
}

proof fn lemma_padded_plain(t: Seq<char>, w: nat)
    requires
        plain(t),
    ensures
        plain(padded(t, w)),
        sum_widths(padded(t, w)) == w,
{
    reveal(padded);
    lemma_pad_truncate_plain(t, w);
}

proof fn lemma_subrange_plain(t: Seq<char>, a: int, b: int)
    requires
        plain(t),
        0 <= a <= b <= t.len(),
    ensures
        plain(t.subrange(a, b)),
{
    let u = t.subrange(a, b);
    assert forall|i: int| 0 <= i < u.len() implies #[trigger] u[i] != '\x1b' && u[i] != '\u{fe0f}' by {
        assert(u[i] == t[i + a]);
    }
}

/// The badge words are plain whenever the kinds are.
proof fn lemma_badge_plain(c: CompletionCandidate)
    requires
        candidate_plain(c),
    ensures
        spec_badge(kind_view(c.kind)) matches Some(w) ==> plain(w),
{
    reveal_strlit("dir");
    reveal_strlit("file");
    reveal_strlit("builtin");
    reveal_strlit("command");
    reveal_strlit("variable");
    reveal_strlit("history");
    reveal_strlit("alias");
    reveal_strlit("option");
    reveal_strlit("subcmd");
    if let Some(w) = spec_badge(kind_view(c.kind)) {
        assert forall|i: int| 0 <= i < w.len() implies #[trigger] w[i] != '\x1b' && w[i] != '\u{fe0f}' by {
            if let Some(k) = c.kind {
                if w != k@ {
                    assert('a' <= w[i] <= 'z');
                }
            }
        }
    }
}

proof fn lemma_gaps()
    ensures
        plain(" "@),
        plain("  "@),
        sum_widths(" "@) == 1,
        sum_widths("  "@) == 2,
{
    reveal_strlit(" ");
    reveal_strlit("  ");
    lemma_plain_text(" "@);
    lemma_plain_text("  "@);
    reveal_with_fuel(sum_widths, 3);
    assert(" "@.drop_last() =~= Seq::<char>::empty());
    assert("  "@.drop_last() =~= " "@);
}

proof fn lemma_head_adds(c: CompletionCandidate, selected: bool, l: DropdownLayout, typed: Seq<char>)
    requires
        candidate_plain(c),
    ensures
        adds(spec_row_head(c, selected, l, typed), (l.indent + 3 + l.label_w) as nat),
{
    let nl = "\r\n"@;
    reveal_strlit("\r\n");
    lemma_plain_text(nl);
    lemma_plain_adds(nl);
    reveal_with_fuel(sum_widths, 3);
    assert(nl.drop_last() =~= seq!['\r']);
    assert(seq!['\r'].drop_last() =~= Seq::<char>::empty());
    assert(sum_widths(nl) == 0);
    lemma_spaces_adds(l.indent as nat);
    let m = marker(selected);
    reveal_strlit(" \u{25b6} ");
    reveal_strlit("   ");
    lemma_plain_text(m);
    reveal_with_fuel(sum_widths, 4);
    assert(m.drop_last().drop_last().drop_last() =~= Seq::<char>::empty());
    assert(sum_widths(m) == 3);
    lemma_paint_adds(Ink::Marker, selected, m);
    lemma_adds_concat(nl, 0, spaces(l.indent as nat), l.indent as nat);
    lemma_adds_concat(nl + spaces(l.indent as nat), l.indent as nat, spec_paint(Ink::Marker, selected, m), 3);
    let label = padded(c.display@, l.label_w as nat);
    lemma_label_adds(label, typed, selected, l.label_w as nat, c.display@);
    lemma_adds_concat(
        nl + spaces(l.indent as nat) + spec_paint(Ink::Marker, selected, m),
        (l.indent + 3) as nat,
        spec_paint_label(label, typed, selected),
        l.label_w as nat,
    );
}

proof fn lemma_label_adds(label: Seq<char>, typed: Seq<char>, selected: bool, w: nat, shown: Seq<char>)
    requires
        plain(shown),
        label == padded(shown, w),
    ensures
        adds(spec_paint_label(label, typed, selected), w),
{
    lemma_padded_plain(shown, w);
    let k = spec_prefix_chars(label, typed);
    lemma_walk_bound(label, 0, flat_lower(typed));
    if k == 0 {
        lemma_paint_adds(Ink::Text, selected, label);
    } else {
        let a = label.subrange(0, k as int);
        let b = label.subrange(k as int, label.len() as int);
        lemma_subrange_plain(label, 0, k as int);
        lemma_subrange_plain(label, k as int, label.len() as int);
        assert(label =~= a + b);
        lemma_sum_widths_concat(a, b);
        lemma_paint_adds(Ink::Match, selected, a);
        lemma_paint_adds(Ink::Text, selected, b);
        lemma_adds_concat(
            spec_paint(Ink::Match, selected, a),
            sum_widths(a),
            spec_paint(Ink::Text, selected, b),
            sum_widths(b),
        );
    }
}

proof fn lemma_empty_adds()
    ensures
        adds(Seq::<char>::empty(), 0),
{
    assert forall|st: WidthState| !st.in_esc implies (#[trigger] width_run(st, Seq::<char>::empty())).width
        == st.width + 0 && !width_run(st, Seq::<char>::empty()).in_esc by {}
}

proof fn lemma_badge_adds(c: CompletionCandidate, selected: bool, l: DropdownLayout, show_kind: bool)
    requires
        candidate_plain(c),
        l.badge_w == 0 || l.badge_w >= 2,
    ensures
        adds(spec_row_badge(c, selected, l, show_kind), if l.badge_w > 0 && show_kind { (1 + l.badge_w) as nat } else { 0 }),
{
    lemma_gaps();
    lemma_empty_adds();
    if l.badge_w > 0 && show_kind {
        let w = l.badge_w as nat;
        let one = " "@;
        lemma_paint_adds(Ink::Blank, selected, one);
        let cell = spec_badge_cell(c, w, selected);
        lemma_badge_plain(c);
        match spec_badge(kind_view(c.kind)) {
            None => {
                lemma_spaces_adds(w);
            },
            Some(word) => {
                let inner = (w - 2) as nat;
                lemma_padded_plain(word, inner);
                let pw = padded(word, inner);
                lemma_plain_concat(one, pw);
                lemma_plain_concat(one + pw, one);
                lemma_sum_widths_concat(one, pw);
                lemma_sum_widths_concat(one + pw, one);
                lemma_paint_adds(Ink::Badge, selected, one + pw + one);
            },
        }
        assert(adds(cell, w));
        lemma_adds_concat(spec_paint(Ink::Blank, selected, one), 1, cell, w);
    } else {
        assert(spec_row_badge(c, selected, l, show_kind) =~= Seq::<char>::empty());
    }
}

proof fn lemma_desc_adds(c: CompletionCandidate, selected: bool, l: DropdownLayout, descriptions: bool)
    requires
        candidate_plain(c),
    ensures
        adds(spec_row_desc(c, selected, l, descriptions), if l.desc_w > 0 && descriptions { (2 + l.desc_w) as nat } else { 0 }),
{
    lemma_gaps();
    lemma_empty_adds();
    if l.desc_w > 0 && descriptions {
        assert(plain(desc_text(c))) by {
            if c.description is None {
                assert(desc_text(c) =~= Seq::<char>::empty());
            }
        }
        let d = padded(desc_text(c), l.desc_w as nat);
        lemma_padded_plain(desc_text(c), l.desc_w as nat);
        lemma_paint_adds(Ink::Blank, selected, "  "@);
        lemma_paint_adds(Ink::Description, selected, d);
        lemma_adds_concat(spec_paint(Ink::Blank, selected, "  "@), 2, spec_paint(Ink::Description, selected, d), l.desc_w as nat);
    } else {
        assert(spec_row_desc(c, selected, l, descriptions) =~= Seq::<char>::empty());
    }
}

/// Every row the menu draws is [`drawn_width`] cells wide, the same for every candidate on the
/// page whatever the settings show, so its columns line up and the rows walked back up are the
/// rows drawn; whenever the candidate's texts hold no escape and no `U+FE0F`. Every layout
/// [`compute_layout`] makes has a badge column of none or at least three cells.
pub proof fn law_every_row_is_as_wide_as_the_layout(
    c: CompletionCandidate,
    selected: bool,
    l: DropdownLayout,
    typed: Seq<char>,
    show_kind: bool,
    descriptions: bool,
)
    requires
        candidate_plain(c),
        l.badge_w == 0 || l.badge_w >= 2,
    ensures
        spec_display_width(spec_row(c, selected, l, typed, show_kind, descriptions)) == drawn_width(
            l,
            show_kind,
            descriptions,
        ),
{
    let head = spec_row_head(c, selected, l, typed);
    let badge = spec_row_badge(c, selected, l, show_kind);
    let desc = spec_row_desc(c, selected, l, descriptions);
    let hw = (l.indent + 3 + l.label_w) as nat;
    let bw: nat = if l.badge_w > 0 && show_kind { (1 + l.badge_w) as nat } else { 0 };
    let dw: nat = if l.desc_w > 0 && descriptions { (2 + l.desc_w) as nat } else { 0 };
    lemma_head_adds(c, selected, l, typed);
    lemma_badge_adds(c, selected, l, show_kind);
    lemma_desc_adds(c, selected, l, descriptions);
    lemma_gaps();
    let tail = spec_paint(Ink::Blank, selected, " "@) + "\x1b[K"@;
    lemma_paint_adds(Ink::Blank, selected, " "@);
    lemma_sgr_escapes(Ink::Blank, selected);
    lemma_escape_adds("\x1b[K"@);
    lemma_adds_concat(spec_paint(Ink::Blank, selected, " "@), 1, "\x1b[K"@, 0);
    lemma_adds_concat(head, hw, badge, bw);
    lemma_adds_concat(head + badge, hw + bw, desc, dw);
    lemma_adds_concat(head + badge + desc, hw + bw + dw, tail, 1);
    let row = spec_row(c, selected, l, typed, show_kind, descriptions);
    assert(row =~= head + badge + desc + tail);
    lemma_scan_is_run(row);
    let z = WidthState { width: 0, in_esc: false, prev: None };
    assert(width_run(z, row).width == hw + bw + dw + 1);
}

/// No row the menu draws is wider than the terminal, whatever the candidates want, the indent
/// asked for and the settings, once the terminal (0 read as [`FALLBACK_COLS`]) has room for the
/// smallest box and the candidate's texts hold no escape and no `U+FE0F`.
pub proof fn law_no_drawn_row_overflows(
    c: CompletionCandidate,
    selected: bool,
    typed: Seq<char>,
    s: Completion,
    natural_label: nat,
    natural_desc: nat,
    natural_badge: nat,
    indent_cols: nat,
    cols: nat,
)
    requires
        candidate_plain(c),
        cols == 0 || cols >= super::layout::MIN_LABEL_COLS + OVERHEAD_NO_DESC,
        natural_label <= usize::MAX / 4 + 6,
        natural_desc <= usize::MAX / 4,
        cols <= usize::MAX / 4,
    ensures
        ({
            let l = spec_layout(natural_label as int, natural_desc as int, natural_badge as int, indent_cols as int, cols as int);
            spec_display_width(spec_row(c, selected, l, typed, s.show_kind, s.descriptions))
                <= (if cols == 0 { FALLBACK_COLS as nat } else { cols })
        }),
{
    let l = spec_layout(natural_label as int, natural_desc as int, natural_badge as int, indent_cols as int, cols as int);
    super::layout::lemma_row_width_bound(natural_label, natural_desc, natural_badge, indent_cols, cols);
    super::layout::law_rows_fit_the_terminal(natural_label, natural_desc, natural_badge, indent_cols, cols);
    law_every_row_is_as_wide_as_the_layout(c, selected, l, typed, s.show_kind, s.descriptions);
}

} // verus!
