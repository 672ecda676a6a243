//! Fitting the dropdown's columns into the terminal it will be drawn on: given the candidates,
//! the indent the caller would like and the columns that exist, widths such that every rendered
//! row is at most `cols` cells wide whenever the smallest box fits at all.

use vstd::prelude::*;
use super::CompletionCandidate;
use super::{kind_view, spec_badge, spec_icon};
use super::width::{FALLBACK_COLS, display_width, spec_display_width};
use crate::text::fits;

verus! {

/// Cells a row spends on chrome when it has a description column, and when it does not.
pub const OVERHEAD_WITH_DESC: usize = 10;
pub const OVERHEAD_NO_DESC: usize = 8;
/// Below these a column is illegible.
pub const MIN_LABEL_COLS: usize = 6;
pub const MIN_DESC_COLS: usize = 8;
/// The narrowest label column, however short the labels.
pub const LABEL_FLOOR: usize = 12;
/// The description column's preferred width.
pub const DESC_PREFERRED: usize = 25;
/// The most cells a badge's word is given; a longer word is cut, so one odd kind cannot widen
/// every row.
pub const BADGE_TEXT_MAX: usize = 8;

/// The widths the dropdown is drawn with.
#[derive(Debug, Clone, Copy, PartialEq, Eq, Structural)]
pub struct DropdownLayout {
    /// The indent actually used: the one asked for, reduced until a box still fits.
    pub indent: usize,
    /// The label column.
    pub label_w: usize,
    /// The badge column, a cell of padding either side of the word included; 0 when no
    /// candidate on the page has a kind or the terminal has no room for it.
    pub badge_w: usize,
    /// The description column; 0 when descriptions do not fit at all.
    pub desc_w: usize,
    /// The width the box is laid out to, indent excluded.
    pub box_w: usize,
}

impl DropdownLayout {
    /// The cells one row takes, indent included.
    pub fn row_width(&self) -> (r: usize)
        requires
            self.indent + self.box_w <= usize::MAX,
        ensures
            r == self.indent + self.box_w,
    {
        self.indent + self.box_w
    }

    pub fn has_badge(&self) -> (r: bool)
        ensures
            r == (self.badge_w > 0),
    {
        self.badge_w > 0
    }

    pub fn has_desc(&self) -> (r: bool)
        ensures
            r == (self.desc_w > 0),
    {
        self.desc_w > 0
    }
}

/// A candidate whose texts are of a length a machine can hold.
pub open spec fn candidate_fits(c: CompletionCandidate) -> bool {
    &&& fits(c.display@)
    &&& c.description matches Some(d) ==> fits(d@)
    &&& c.kind matches Some(k) ==> fits(k@)
}

/// The cells a candidate's label needs: its icon and its display text.
pub open spec fn label_cells(c: CompletionCandidate) -> nat {
    spec_display_width(spec_icon(kind_view(c.kind), c.display@)) + spec_display_width(c.display@)
}

/// The cells a candidate's description needs.
pub open spec fn desc_cells(c: CompletionCandidate) -> nat {
    match c.description {
        Some(d) => spec_display_width(d@),
        None => 0,
    }
}

/// The cells a candidate's badge word needs, 0 when it has no kind.
pub open spec fn badge_cells(c: CompletionCandidate) -> nat {
    match spec_badge(kind_view(c.kind)) {
        Some(w) => spec_display_width(w),
        None => 0,
    }
}

pub open spec fn max_nat(a: nat, b: nat) -> nat {
    if a >= b { a } else { b }
}

pub open spec fn min_int(a: int, b: int) -> int {
    if a <= b { a } else { b }
}

pub open spec fn sat_sub(a: int, b: int) -> int {
    if a >= b { a - b } else { 0 }
}

/// The widest label among `cs`.
pub open spec fn max_label(cs: Seq<CompletionCandidate>) -> nat
    decreases cs.len(),
{
    if cs.len() == 0 {
        0
    } else {
        max_nat(max_label(cs.drop_last()), label_cells(cs.last()))
    }
}

/// The widest description among `cs`.
pub open spec fn max_desc(cs: Seq<CompletionCandidate>) -> nat
    decreases cs.len(),
{
    if cs.len() == 0 {
        0
    } else {
        max_nat(max_desc(cs.drop_last()), desc_cells(cs.last()))
    }
}

/// The widest badge word among `cs`.
pub open spec fn max_badge(cs: Seq<CompletionCandidate>) -> nat
    decreases cs.len(),
{
    if cs.len() == 0 {
        0
    } else {
        max_nat(max_badge(cs.drop_last()), badge_cells(cs.last()))
    }
}

/// The badge column the words want: the widest word, cut at [`BADGE_TEXT_MAX`], with a cell of
/// padding either side; nothing when no candidate has a kind.
pub open spec fn spec_badge_want(natural_badge: int) -> int {
    if natural_badge > 0 {
        min_int(natural_badge, BADGE_TEXT_MAX as int) + 2
    } else {
        0
    }
}

/// The badge column on a terminal of `cols` columns: what the words want, unless even an
/// unindented row could not hold it beside the smallest box.
pub open spec fn spec_badge_w(natural_badge: int, cols: int) -> int {
    let want = spec_badge_want(natural_badge);
    if want > 0 && cols >= MIN_LABEL_COLS + OVERHEAD_NO_DESC + 1 + want { want } else { 0 }
}

/// The indent actually used and the cells left for the label and description columns, on a
/// terminal of `cols` columns where the badge column and the gap before it take `cost`.
pub open spec fn spec_room(indent_cols: int, cols: int, cost: int) -> (int, int) {
    let smallest_box = MIN_LABEL_COLS + OVERHEAD_NO_DESC + cost;
    let indent = min_int(indent_cols, sat_sub(cols, smallest_box));
    (indent, sat_sub(sat_sub(cols, indent), cost))
}

/// The widths wanted before anything is squeezed: the label capped at three fifths of the room
/// when there is a description, and the description at least its preferred width.
pub open spec fn spec_wanted(natural_label: int, natural_desc: int, avail: int) -> (int, int) {
    let natural_label = if natural_label >= LABEL_FLOOR { natural_label } else { LABEL_FLOOR as int };
    let desc0 = if natural_desc > 0 {
        if natural_desc >= DESC_PREFERRED { natural_desc } else { DESC_PREFERRED as int }
    } else {
        0
    };
    let label0 = if desc0 > 0 {
        let cap = avail * 3 / 5;
        min_int(natural_label, if cap >= MIN_LABEL_COLS { cap } else { MIN_LABEL_COLS as int })
    } else {
        natural_label
    };
    (label0, desc0)
}

/// The label and description widths once the description has given way to the room: it shrinks
/// first, then the label shrinks to leave the narrowest description, and failing that the
/// description goes.
pub open spec fn spec_squeezed(label0: int, desc0: int, avail: int) -> (int, int) {
    if desc0 > 0 && label0 + desc0 + OVERHEAD_WITH_DESC > avail {
        let for_desc = sat_sub(avail, label0 + OVERHEAD_WITH_DESC);
        if for_desc >= MIN_DESC_COLS {
            (label0, for_desc)
        } else {
            let for_label = sat_sub(avail, MIN_DESC_COLS + OVERHEAD_WITH_DESC);
            if for_label >= MIN_LABEL_COLS {
                (for_label, MIN_DESC_COLS as int)
            } else {
                (label0, 0)
            }
        }
    } else {
        (label0, desc0)
    }
}

/// Without a description the label takes what is left, and never less than one cell.
pub open spec fn spec_final_label(label1: int, desc1: int, avail: int) -> int {
    if desc1 == 0 {
        let capped = min_int(label1, sat_sub(avail, OVERHEAD_NO_DESC as int));
        if capped >= 1 { capped } else { 1 }
    } else {
        label1
    }
}

/// The layout for labels that want `natural_label` cells, descriptions that want `natural_desc`
/// and badge words that want `natural_badge`, with `indent_cols` asked for on a `cols`-wide
/// terminal (0 meaning unknown).
///
/// The indent is given up before the box is, and the box keeps room for the badge column while
/// an unindented row can hold it; descriptions shrink before labels do; and descriptions are
/// dropped before labels become illegible.
#[verifier::opaque]
pub open spec fn spec_layout(natural_label: int, natural_desc: int, natural_badge: int, indent_cols: int, cols0: int) -> DropdownLayout {
    let cols = if cols0 == 0 { FALLBACK_COLS as int } else { cols0 };
    let badge_w = spec_badge_w(natural_badge, cols);
    let cost = if badge_w > 0 { badge_w + 1 } else { 0 };
    let (indent, avail) = spec_room(indent_cols, cols, cost);
    let (label0, desc0) = spec_wanted(natural_label, natural_desc, avail);
    let (label1, desc1) = spec_squeezed(label0, desc0, avail);
    let label2 = spec_final_label(label1, desc1, avail);
    let box_w = cost + if desc1 > 0 {
        label2 + desc1 + OVERHEAD_WITH_DESC
    } else {
        label2 + OVERHEAD_NO_DESC
    };
    DropdownLayout {
        indent: indent as usize,
        label_w: label2 as usize,
        badge_w: badge_w as usize,
        desc_w: desc1 as usize,
        box_w: box_w as usize,
    }
}

/// A candidate's badge word is one of the fixed words or its own kind, so it fits wherever the
/// candidate does.
pub proof fn lemma_badge_word_fits(c: CompletionCandidate)
    requires
        candidate_fits(c),
    ensures
        spec_badge(kind_view(c.kind)) matches Some(w) ==> fits(w) && spec_display_width(w) <= usize::MAX / 4,
{
    reveal_strlit("dir");
    reveal_strlit("file");
    reveal_strlit("builtin");
    reveal_strlit("command");
    reveal_strlit("variable");
    reveal_strlit("history");
    reveal_strlit("alias");
    reveal_strlit("option");
    reveal_strlit("subcmd");
    if let Some(w) = spec_badge(kind_view(c.kind)) {
        crate::dropdown::width::lemma_width_bound(w);
    }
}

/// Candidates whose texts fit want label and description columns of a size a machine can add up.
pub proof fn lemma_max_bounds(cs: Seq<CompletionCandidate>)
    requires
        forall|i: int| 0 <= i < cs.len() ==> candidate_fits(#[trigger] cs[i]),
    ensures
        max_label(cs) <= usize::MAX / 4 + 6,
        max_desc(cs) <= usize::MAX / 4,
        max_badge(cs) <= usize::MAX / 4,
    decreases cs.len(),
{
    if cs.len() > 0 {
        let last = cs.last();
        assert(candidate_fits(cs[cs.len() - 1]));
        lemma_badge_word_fits(last);
        crate::dropdown::lemma_icon_len(kind_view(last.kind), last.display@);
        crate::dropdown::width::lemma_width_bound(spec_icon(kind_view(last.kind), last.display@));
        crate::dropdown::width::lemma_width_bound(last.display@);
        if let Some(d) = last.description {
            crate::dropdown::width::lemma_width_bound(d@);
        }
        assert forall|i: int| 0 <= i < cs.drop_last().len() implies candidate_fits(#[trigger] cs.drop_last()[i]) by {
            assert(candidate_fits(cs[i]));
        }
        lemma_max_bounds(cs.drop_last());
    }
}

/// The widest label, the widest description and the widest badge word among `candidates`.
fn natural_widths(candidates: &[CompletionCandidate]) -> (r: (usize, usize, usize))
    requires
        forall|i: int| 0 <= i < candidates@.len() ==> candidate_fits(#[trigger] candidates@[i]),
    ensures
        r.0 == max_label(candidates@),
        r.1 == max_desc(candidates@),
        r.2 == max_badge(candidates@),
        r.0 <= usize::MAX / 4 + 6,
        r.1 <= usize::MAX / 4,
        r.2 <= usize::MAX / 4,
{
    let mut natural_label: usize = 0;
    let mut natural_desc: usize = 0;
    let mut natural_badge: usize = 0;
    let mut i: usize = 0;
    while i < candidates.len()
        invariant
            i <= candidates@.len(),
            forall|k: int| 0 <= k < candidates@.len() ==> candidate_fits(#[trigger] candidates@[k]),
            natural_label == max_label(candidates@.subrange(0, i as int)),
            natural_desc == max_desc(candidates@.subrange(0, i as int)),
            natural_badge == max_badge(candidates@.subrange(0, i as int)),
            natural_label <= usize::MAX / 4 + 6,
            natural_desc <= usize::MAX / 4,
            natural_badge <= usize::MAX / 4,
        decreases candidates.len() - i,
    {
        let c = &candidates[i];
        assert(candidate_fits(candidates@[i as int]));
        let icon = c.icon();
        proof {
            crate::dropdown::lemma_icon_len(kind_view(c.kind), c.display@);
        }
        let iw = display_width(icon);
        let dw = display_width(c.display.as_str());
        proof {
            crate::dropdown::width::lemma_width_bound(c.display@);
            crate::dropdown::width::lemma_width_bound(icon@);
        }
        let need = iw + dw;
        let desc = match &c.description {
            Some(d) => {
                proof {
                    crate::dropdown::width::lemma_width_bound(d@);
                }
                display_width(d.as_str())
            },
            None => 0,
        };
        proof {
            lemma_badge_word_fits(*c);
        }
        let badge = match c.badge() {
            Some(w) => display_width(w.as_str()),
            None => 0,
        };
        if badge > natural_badge {
            natural_badge = badge;
        }
        if need > natural_label {
            natural_label = need;
        }
        if desc > natural_desc {
            natural_desc = desc;
        }
        proof {
            assert(candidates@.subrange(0, i + 1).drop_last() =~= candidates@.subrange(0, i as int));
            assert(candidates@.subrange(0, i + 1).last() == candidates@[i as int]);
        }
        i += 1;
    }
    assert(candidates@.subrange(0, candidates@.len() as int) =~= candidates@);
    (natural_label, natural_desc, natural_badge)
}

/// Decide the dropdown's widths for `candidates`, an indent of `indent_cols` and a terminal of
/// `cols` columns (0 meaning unknown, read as [`FALLBACK_COLS`]).
pub fn compute_layout(candidates: &[CompletionCandidate], indent_cols: usize, cols: usize) -> (l: DropdownLayout)
    requires
        forall|i: int| 0 <= i < candidates@.len() ==> candidate_fits(#[trigger] candidates@[i]),
    ensures
        l == spec_layout(
            max_label(candidates@) as int,
            max_desc(candidates@) as int,
            max_badge(candidates@) as int,
            indent_cols as int,
            cols as int,
        ),
{
    let (natural_label, natural_desc, natural_badge) = natural_widths(candidates);
    layout_for(natural_label, natural_desc, natural_badge, indent_cols, cols)
}

/// The layout for the given natural widths; see [`spec_layout`].
fn layout_for(natural_label: usize, natural_desc: usize, natural_badge: usize, indent_cols: usize, cols: usize) -> (l: DropdownLayout)
    requires
        natural_label <= usize::MAX / 4 + 6,
        natural_desc <= usize::MAX / 4,
    ensures
        l == spec_layout(natural_label as int, natural_desc as int, natural_badge as int, indent_cols as int, cols as int),
{
    proof {
        reveal(spec_layout);
    }
    let cols = if cols == 0 {
        FALLBACK_COLS
    } else {
        cols
    };
    let want: usize = if natural_badge > 0 {
        (if natural_badge <= BADGE_TEXT_MAX {
            natural_badge
        } else {
            BADGE_TEXT_MAX
        }) + 2
    } else {
        0
    };
    let badge_w: usize = if want > 0 && cols >= MIN_LABEL_COLS + OVERHEAD_NO_DESC + 1 + want {
        want
    } else {
        0
    };
    let cost: usize = if badge_w > 0 {
        badge_w + 1
    } else {
        0
    };
    let (indent, avail) = room(indent_cols, cols, cost);
    let (label0, desc0) = wanted(natural_label, natural_desc, avail);
    let (label1, desc1) = squeezed(label0, desc0, avail);
    let label_w = final_label(label1, desc1, avail);
    let box_w = cost + if desc1 > 0 {
        label_w + desc1 + OVERHEAD_WITH_DESC
    } else {
        label_w + OVERHEAD_NO_DESC
    };
    DropdownLayout { indent, label_w, badge_w, desc_w: desc1, box_w }
}

fn room(indent_cols: usize, cols: usize, cost: usize) -> (r: (usize, usize))
    requires
        cost <= 11,
    ensures
        r.0 as int == spec_room(indent_cols as int, cols as int, cost as int).0,
        r.1 as int == spec_room(indent_cols as int, cols as int, cost as int).1,
        r.1 <= cols,
{
    let smallest_box = MIN_LABEL_COLS + OVERHEAD_NO_DESC + cost;
    let spare = if cols >= smallest_box {
        cols - smallest_box
    } else {
        0
    };
    let indent = if indent_cols <= spare {
        indent_cols
    } else {
        spare
    };
    let left = if cols >= indent {
        cols - indent
    } else {
        0
    };
    let avail = if left >= cost {
        left - cost
    } else {
        0
    };
    (indent, avail)
}

fn wanted(natural_label: usize, natural_desc: usize, avail: usize) -> (r: (usize, usize))
    requires
        natural_label <= usize::MAX / 4 + 6,
        natural_desc <= usize::MAX / 4,
    ensures
        r.0 as int == spec_wanted(natural_label as int, natural_desc as int, avail as int).0,
        r.1 as int == spec_wanted(natural_label as int, natural_desc as int, avail as int).1,
        r.0 <= usize::MAX / 4 + 6,
        r.1 <= usize::MAX / 4 + 25,
{
    let natural_label = if natural_label >= LABEL_FLOOR {
        natural_label
    } else {
        LABEL_FLOOR
    };
    let desc0 = if natural_desc > 0 {
        if natural_desc >= DESC_PREFERRED {
            natural_desc
        } else {
            DESC_PREFERRED
        }
    } else {
        0
    };
    let label0 = if desc0 > 0 {
        let cap = ((avail as u128) * 3 / 5) as usize;
        let cap = if cap >= MIN_LABEL_COLS {
            cap
        } else {
            MIN_LABEL_COLS
        };
        if natural_label <= cap {
            natural_label
        } else {
            cap
        }
    } else {
        natural_label
    };
    (label0, desc0)
}

fn squeezed(label0: usize, desc0: usize, avail: usize) -> (r: (usize, usize))
    requires
        label0 <= usize::MAX / 4 + 6,
        desc0 <= usize::MAX / 4 + 25,
    ensures
        r.0 as int == spec_squeezed(label0 as int, desc0 as int, avail as int).0,
        r.1 as int == spec_squeezed(label0 as int, desc0 as int, avail as int).1,
        r.0 <= usize::MAX / 4 + 6,
        r.1 <= usize::MAX / 4 + 25,
{
    if desc0 > 0 && label0 + desc0 + OVERHEAD_WITH_DESC > avail {
        let for_desc = if avail >= label0 + OVERHEAD_WITH_DESC {
            avail - (label0 + OVERHEAD_WITH_DESC)
        } else {
            0
        };
        if for_desc >= MIN_DESC_COLS {
            (label0, for_desc)
        } else {
            let for_label = if avail >= MIN_DESC_COLS + OVERHEAD_WITH_DESC {
                avail - (MIN_DESC_COLS + OVERHEAD_WITH_DESC)
            } else {
                0
            };
            if for_label >= MIN_LABEL_COLS {
                (for_label, MIN_DESC_COLS)
            } else {
                (label0, 0)
            }
        }
    } else {
        (label0, desc0)
    }
}

fn final_label(label1: usize, desc1: usize, avail: usize) -> (r: usize)
    requires
        label1 <= usize::MAX / 4 + 6,
    ensures
        r as int == spec_final_label(label1 as int, desc1 as int, avail as int),
        r <= usize::MAX / 4 + 6,
{
    if desc1 == 0 {
        let cap = if avail >= OVERHEAD_NO_DESC {
            avail - OVERHEAD_NO_DESC
        } else {
            0
        };
        let capped = if label1 <= cap {
            label1
        } else {
            cap
        };
        if capped >= 1 {
            capped
        } else {
            1
        }
    } else {
        label1
    }
}

/// Whatever the terminal's width, a row is never wider than that width or the nine cells of the
/// narrowest possible box, and the box is its columns plus the chrome around them.
pub proof fn lemma_row_width_bound(natural_label: nat, natural_desc: nat, natural_badge: nat, indent_cols: nat, cols: nat)
    requires
        natural_label <= usize::MAX / 4 + 6,
        natural_desc <= usize::MAX / 4,
        cols <= usize::MAX,
    ensures
        ({
            let l = spec_layout(natural_label as int, natural_desc as int, natural_badge as int, indent_cols as int, cols as int);
            let c = if cols == 0 { FALLBACK_COLS as int } else { cols as int };
            &&& l.indent + l.box_w <= (if c >= 9 { c } else { 9 })
            &&& l.box_w == l.label_w + l.desc_w + (if l.desc_w > 0 { OVERHEAD_WITH_DESC } else { OVERHEAD_NO_DESC })
                + (if l.badge_w > 0 { l.badge_w + 1 } else { 0 })
            &&& l.label_w >= 1
            &&& l.badge_w <= BADGE_TEXT_MAX + 2
            &&& l.badge_w == 0 || l.badge_w >= 3
        }),
{
    reveal(spec_layout);
    let c = if cols == 0 { FALLBACK_COLS as int } else { cols as int };
    let badge_w = spec_badge_w(natural_badge as int, c);
    let cost = if badge_w > 0 { badge_w + 1 } else { 0 };
    let (indent, avail) = spec_room(indent_cols as int, c, cost);
    lemma_columns(natural_label as int, natural_desc as int, avail);
}

/// The label and description columns for `avail` cells: the box they make is never wider than
/// those cells or the nine of the narrowest box, and never wider than the cells at all once
/// they hold the smallest box.
proof fn lemma_columns(natural_label: int, natural_desc: int, avail: int)
    requires
        0 <= natural_label <= usize::MAX / 4 + 6,
        0 <= natural_desc <= usize::MAX / 4,
        0 <= avail <= usize::MAX,
    ensures
        ({
            let (label0, desc0) = spec_wanted(natural_label, natural_desc, avail);
            let (label1, desc1) = spec_squeezed(label0, desc0, avail);
            let label2 = spec_final_label(label1, desc1, avail);
            let box_w = if desc1 > 0 { label2 + desc1 + OVERHEAD_WITH_DESC } else { label2 + OVERHEAD_NO_DESC };
            &&& box_w <= (if avail >= 9 { avail } else { 9 })
            &&& avail >= MIN_LABEL_COLS + OVERHEAD_NO_DESC ==> box_w <= avail
            &&& label2 >= 1
            &&& desc1 >= 0
        }),
{
}

/// Every row fits: whenever the terminal (0 read as [`FALLBACK_COLS`]) has room for the smallest
/// box, the indent plus the box is at most the terminal's width, whatever the candidates want.
pub proof fn law_rows_fit_the_terminal(natural_label: nat, natural_desc: nat, natural_badge: nat, indent_cols: nat, cols: nat)
    requires
        cols == 0 || cols >= MIN_LABEL_COLS + OVERHEAD_NO_DESC,
        natural_label <= usize::MAX / 4 + 6,
        natural_desc <= usize::MAX / 4,
        cols <= usize::MAX / 4,
    ensures
        ({
            let l = spec_layout(natural_label as int, natural_desc as int, natural_badge as int, indent_cols as int, cols as int);
            l.indent + l.box_w <= (if cols == 0 { FALLBACK_COLS as int } else { cols as int })
        }),
{
    reveal(spec_layout);
    let c = if cols == 0 { FALLBACK_COLS as int } else { cols as int };
    let badge_w = spec_badge_w(natural_badge as int, c);
    let cost = if badge_w > 0 { badge_w + 1 } else { 0 };
    let (indent, avail) = spec_room(indent_cols as int, c, cost);
    lemma_columns(natural_label as int, natural_desc as int, avail);
}

/// The layout's shape: the indent is the one asked for, given up only as far as the smallest
/// box and the badge column need; the label keeps a cell; a description column is absent or
/// legible; the box is its columns, the badge column and the chrome; and a width of 0 is read
/// as [`FALLBACK_COLS`].
pub proof fn law_the_layout_keeps_its_shape(natural_label: nat, natural_desc: nat, natural_badge: nat, indent_cols: nat, cols: nat)
    requires
        natural_label <= usize::MAX / 4 + 6,
        natural_desc <= usize::MAX / 4,
        cols <= usize::MAX / 4,
    ensures
        ({
            let l = spec_layout(natural_label as int, natural_desc as int, natural_badge as int, indent_cols as int, cols as int);
            let c = if cols == 0 { FALLBACK_COLS as int } else { cols as int };
            let cost = if l.badge_w > 0 { l.badge_w + 1 } else { 0 };
            &&& l.indent == min_int(indent_cols as int, sat_sub(c, MIN_LABEL_COLS + OVERHEAD_NO_DESC + cost))
            &&& l.label_w >= 1
            &&& l.desc_w == 0 || l.desc_w >= MIN_DESC_COLS
            &&& l.box_w == cost + l.label_w + (if l.desc_w > 0 { l.desc_w + OVERHEAD_WITH_DESC } else { OVERHEAD_NO_DESC as int })
            &&& l == spec_layout(natural_label as int, natural_desc as int, natural_badge as int, indent_cols as int, FALLBACK_COLS as int) <== cols == 0
        }),
{
    reveal(spec_layout);
    lemma_row_width_bound(natural_label, natural_desc, natural_badge, indent_cols, cols);
    let c = if cols == 0 { FALLBACK_COLS as int } else { cols as int };
    let badge_w = spec_badge_w(natural_badge as int, c);
    let cost = if badge_w > 0 { badge_w + 1 } else { 0 };
    let (indent, avail) = spec_room(indent_cols as int, c, cost);
    lemma_columns(natural_label as int, natural_desc as int, avail);
}

} // verus!
