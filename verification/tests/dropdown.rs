use oslo::dropdown::layout::{compute_layout, MIN_LABEL_COLS, OVERHEAD_NO_DESC};
use oslo::dropdown::width::{
    cells, display_width, pad_to_width, physical_rows, truncate_to_width, without_escapes, FALLBACK_COLS,
};
use oslo::dropdown::CompletionCandidate;

fn cand(display: &str, desc: Option<&str>) -> CompletionCandidate {
    CompletionCandidate::new(
        display.to_string(),
        display.to_string(),
        desc.map(str::to_string),
    )
}

#[test]
fn a_comfortable_terminal_keeps_both_columns() {
    let c = vec![
        cand("cargo", Some("Rust package manager")),
        cand("cd", Some("Change working directory")),
    ];
    let l = compute_layout(&c, 4, 80);
    assert!(l.has_desc());
    assert_eq!(l.indent, 4);
    assert!(l.row_width() <= 80, "{l:?}");
}

#[test]
fn indent_is_given_up_before_the_box_is() {
    let c = vec![cand("cargo", Some("Rust package manager")); 3];
    let l = compute_layout(&c, 200, 80);
    assert!(l.indent < 200);
    assert!(l.row_width() <= 80, "{l:?}");
    assert!(l.label_w >= MIN_LABEL_COLS);
}

#[test]
fn descriptions_shrink_before_labels_do() {
    let c = vec![cand(
        "a-fairly-long-candidate",
        Some("a description that is much too long for the space available here"),
    )];
    let l = compute_layout(&c, 0, 80);
    assert!(l.has_desc());
    assert_eq!(l.row_width(), 80);
    assert!(l.label_w < display_width("⚙️ a-fairly-long-candidate") + 1 || l.desc_w < 64);
}

#[test]
fn descriptions_are_dropped_before_labels_become_illegible() {
    let c = vec![cand("cargo", Some("Rust package manager")); 2];
    let narrow = compute_layout(&c, 0, 30);
    assert!(narrow.row_width() <= 30);
    let tiny = compute_layout(&c, 10, 16);
    assert!(!tiny.has_desc());
    assert_eq!(tiny.indent, 2);
    assert!(tiny.row_width() <= 16, "{tiny:?}");
}

#[test]
fn absurdly_narrow_terminals_still_produce_a_layout() {
    let c = vec![cand("cargo", None)];
    let l = compute_layout(&c, 40, 6);
    assert_eq!(l.indent, 0);
    assert!(l.label_w >= 1);
    assert_eq!(l.box_w, l.label_w + OVERHEAD_NO_DESC);
}

#[test]
fn zero_columns_falls_back_rather_than_collapsing() {
    let c = vec![cand("cargo", Some("Rust package manager"))];
    assert_eq!(
        compute_layout(&c, 0, 0),
        compute_layout(&c, 0, FALLBACK_COLS)
    );
}

#[test]
fn display_width_counts_cells_not_bytes() {
    assert_eq!(display_width("cargo"), 5);
    assert_eq!(display_width("\x1b[1;36mcargo\x1b[0m"), 5);
    assert_eq!(display_width("📁 "), 3);
    assert_eq!(display_width("🚩 "), 3);
    assert_eq!(display_width("⚙️ "), 3);
    assert_eq!(display_width("🏷️ "), 3);
    assert_eq!(display_width("╭─╮"), 3);
    assert_eq!(display_width("│ ▶ │"), 5);
}

#[test]
fn cells_agree_with_display_width() {
    for s in ["cargo", "📁 dir/", "⚙️ x", "🏷️ sub", "ünïcödé"] {
        let summed: usize = cells(s).iter().map(|(_, w)| w).sum();
        assert_eq!(summed, display_width(s), "disagreement on {s:?}");
    }
}

#[test]
fn physical_rows_counts_wraps_with_pending_wrap_semantics() {
    assert_eq!(physical_rows(0, 80), 1);
    assert_eq!(physical_rows(40, 80), 1);
    assert_eq!(physical_rows(80, 80), 1);
    assert_eq!(physical_rows(81, 80), 2);
    assert_eq!(physical_rows(297, 80), 4);
    assert_eq!(physical_rows(160, 80), 2);
    assert_eq!(physical_rows(161, 80), 3);
}

#[test]
fn truncate_marks_the_cut() {
    assert_eq!(truncate_to_width("cargo", 10), "cargo");
    assert_eq!(truncate_to_width("cargo", 5), "cargo");
    assert_eq!(truncate_to_width("cargo", 4), "car…");
    assert_eq!(truncate_to_width("cargo", 1), "…");
    assert_eq!(truncate_to_width("cargo", 0), "");
    assert_eq!(display_width(&truncate_to_width("📁📁📁", 5)), 5);
    assert_eq!(display_width(&truncate_to_width("⚙️ cargo", 4)), 4);
}

#[test]
fn pad_reaches_the_target_but_never_shrinks() {
    assert_eq!(pad_to_width("cd", 5), "cd   ");
    assert_eq!(display_width(&pad_to_width("⚙️ cd", 8)), 8);
    assert_eq!(pad_to_width("cargo", 2), "cargo");
}

#[test]
fn every_row_of_a_layout_fits_the_terminal_it_was_made_for() {
    let c = vec![cand("cargo", Some("Rust package manager")); 2];
    for cols in [20usize, 30, 40, 60, 100, 200] {
        let l = compute_layout(&c, 12, cols);
        assert!(l.row_width() <= cols, "{l:?} at {cols}");
    }
}

fn kinded(display: &str, kind: &str) -> CompletionCandidate {
    let mut c = cand(display, None);
    c.kind = Some(kind.to_string());
    c
}

#[test]
fn the_badge_column_is_the_widest_word_and_its_padding() {
    let c = vec![kinded("a", "dir"), kinded("b", "variable"), cand("c", None)];
    let l = compute_layout(&c, 0, 80);
    assert!(l.has_badge());
    assert_eq!(l.badge_w, 10);
    assert_eq!(l.box_w, l.label_w + OVERHEAD_NO_DESC + 11);
    assert!(l.row_width() <= 80);
}

#[test]
fn no_kind_on_the_page_means_no_badge_column() {
    let c = vec![cand("a", None), cand("b", Some("bee"))];
    let l = compute_layout(&c, 0, 80);
    assert!(!l.has_badge());
    assert_eq!(l.badge_w, 0);
}

#[test]
fn a_terminal_too_narrow_for_the_badge_drops_it_and_still_fits() {
    let c = vec![kinded("cargo", "command")];
    // The smallest box needs 14 cells, the badge 10 more: 23 is one short.
    let l = compute_layout(&c, 0, 23);
    assert!(!l.has_badge());
    assert!(l.row_width() <= 23);
    let l = compute_layout(&c, 5, 24);
    assert!(l.has_badge());
    assert_eq!(l.indent, 0);
    assert!(l.row_width() <= 24, "{l:?}");
}

#[test]
fn stripping_escapes_leaves_what_the_terminal_shows() {
    assert_eq!(without_escapes("\x1b[1;36mcargo\x1b[0m"), "cargo");
    assert_eq!(without_escapes("a\x1b]0;title\x07b"), "ab");
    assert_eq!(without_escapes("a\x1b]8;;https://x\x1b\\link\x1b]8;;\x1b\\b"), "alinkb");
    assert_eq!(without_escapes("plain text"), "plain text");
}

#[test]
fn stripping_twice_changes_nothing() {
    for s in ["\x1b[1;36mcargo\x1b[0m", "a\x1b]0;t\x07b\x1b", "\x1b\x1b[m x", "\x1bcz"] {
        let once = without_escapes(s);
        assert!(!once.contains('\x1b'), "{once:?}");
        assert_eq!(without_escapes(&once), once);
    }
}
