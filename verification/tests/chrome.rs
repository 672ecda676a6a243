use oslo::ask::chrome::{legend_text, rows_of, Border, Chrome, Fit, Place};
use oslo::prompt::printed_width;

/// The terminal the frames are drawn on.
const COLS: usize = 80;
const ROWS: usize = 24;

/// A frame as the widgets build them: rows joined by `\r\n`, each with its own erase.
fn frame(rows: &[&str]) -> String {
    rows.iter()
        .map(|row| format!("\r\x1b[K{row}"))
        .collect::<Vec<_>>()
        .join("\r\n")
}

/// The rows of a wrapped frame, with the redraw escapes taken back off.
fn drawn(chrome: &Chrome, rows: &[&str]) -> Vec<String> {
    rows_of(&chrome.wrap(&frame(rows), &[], COLS))
}

fn printed(row: &str) -> usize {
    printed_width(row)
}

#[test]
fn default_chrome_leaves_the_frame_alone() {
    let chrome = Chrome::default();
    assert!(chrome.is_plain());
    assert_eq!(drawn(&chrome, &["one", "two"]), vec!["one", "two"]);
}

#[test]
fn a_content_border_hugs_the_widest_row() {
    let chrome = Chrome {
        border: Border::Square,
        ..Chrome::default()
    };
    let rows = drawn(&chrome, &["short", "much longer row"]);
    assert_eq!(rows.len(), 4, "two rows plus a lid at each end: {rows:?}");
    assert_eq!(rows[0], "┌─────────────────┐");
    assert_eq!(rows[1], "│ short           │");
    assert_eq!(rows[2], "│ much longer row │");
    assert_eq!(rows[3], "└─────────────────┘");
}

#[test]
fn padding_is_configurable() {
    let none = Chrome {
        border: Border::Square,
        padding_x: 0,
        ..Chrome::default()
    };
    assert_eq!(drawn(&none, &["hi"])[1], "│hi│");

    let wide = Chrome {
        border: Border::Square,
        padding_x: 3,
        ..Chrome::default()
    };
    assert_eq!(drawn(&wide, &["hi"])[1], "│   hi   │");

    let tall = Chrome {
        border: Border::Square,
        padding_y: 1,
        ..Chrome::default()
    };
    let rows = drawn(&tall, &["hi"]);
    assert_eq!(rows.len(), 5, "a blank row above and below: {rows:?}");
    let inside = |row: &str| row.trim_matches(|c| c == '│' || c == ' ').to_string();
    assert_eq!(inside(&rows[1]), "", "{rows:?}");
    assert_eq!(inside(&rows[2]), "hi", "{rows:?}");
    assert_eq!(inside(&rows[3]), "", "{rows:?}");
}

#[test]
fn padding_without_a_border_does_nothing() {
    let chrome = Chrome {
        padding_x: 4,
        padding_y: 2,
        ..Chrome::default()
    };
    assert_eq!(drawn(&chrome, &["hi"]), vec!["hi"]);
}

#[test]
fn the_rule_reaches_both_walls() {
    let chrome = Chrome {
        border: Border::Square,
        ..Chrome::default()
    };
    let keys = [("↑↓", "move"), ("enter", "confirm"), ("esc", "cancel")];
    let rows = rows_of(&chrome.wrap(&frame(&["a", "b"]), &keys, COLS));
    let rule = rows
        .iter()
        .find(|r| r.contains('-'))
        .expect("a rule somewhere");
    assert_eq!(printed(rule), printed(&rows[0]), "ragged: {rule:?}");
    let bare = rule.trim_matches(|c| c == '│' || c == ' ');
    assert!(
        printed(bare) > 20,
        "the rule should span the legend, not the content: {bare:?}"
    );
}

#[test]
fn there_is_a_gap_above_the_legend() {
    let chrome = Chrome::default();
    let rows = rows_of(&chrome.wrap(&frame(&["a"]), &[("q", "quit")], COLS));
    assert_eq!(rows.len(), 4, "content, gap, rule, keys: {rows:?}");
    assert_eq!(rows[1].trim(), "", "no gap: {rows:?}");
}

#[test]
fn the_gap_is_configurable() {
    let none = Chrome {
        legend_gap: 0,
        ..Chrome::default()
    };
    assert_eq!(
        rows_of(&none.wrap(&frame(&["a"]), &[("q", "quit")], COLS)).len(),
        3
    );
    let wide = Chrome {
        legend_gap: 3,
        ..Chrome::default()
    };
    assert_eq!(
        rows_of(&wide.wrap(&frame(&["a"]), &[("q", "quit")], COLS)).len(),
        6
    );
}

#[test]
fn no_legend_means_no_gap_and_no_rule() {
    let chrome = Chrome {
        legend: false,
        ..Chrome::default()
    };
    let rows = rows_of(&chrome.wrap(&frame(&["a"]), &[("q", "quit")], COLS));
    assert_eq!(rows, vec!["a"]);
    assert_eq!(chrome.legend_rows(), 0);
}

#[test]
fn the_reserved_rows_match_the_drawn_ones() {
    for chrome in [
        Chrome::default(),
        Chrome {
            border: Border::Square,
            ..Chrome::default()
        },
        Chrome {
            border: Border::Square,
            padding_y: 2,
            legend_gap: 0,
            ..Chrome::default()
        },
        Chrome {
            legend: false,
            ..Chrome::default()
        },
    ] {
        let content = ["a", "b", "c"];
        let rows = rows_of(&chrome.wrap(&frame(&content), &[("q", "quit")], COLS));
        assert_eq!(
            rows.len(),
            content.len() + chrome.extra_rows(),
            "reserved {} but drew {} for {chrome:?}",
            chrome.extra_rows(),
            rows.len()
        );
    }
}

#[test]
fn the_leading_row_is_not_content() {
    let chrome = Chrome {
        border: Border::Square,
        ..Chrome::default()
    };
    let with_lead = chrome.wrap(&format!("\r\n{}", frame(&["hi"])), &[], COLS);
    assert!(with_lead.starts_with("\r\n"), "the lead is kept");
    let rows = rows_of(&with_lead);
    assert_eq!(rows.len(), 4, "{rows:?}");
    assert!(rows[2].contains("hi"), "a blank row crept in: {rows:?}");
}

#[test]
fn a_bordered_frame_is_rectangular() {
    let chrome = Chrome {
        border: Border::Rounded,
        ..Chrome::default()
    };
    let rows = drawn(&chrome, &["a", "bbbbb", "cc"]);
    let widths: Vec<usize> = rows.iter().map(|r| printed(r)).collect();
    assert!(
        widths.iter().all(|w| *w == widths[0]),
        "ragged: {widths:?} for {rows:?}"
    );
    assert_eq!(rows[0], "╭───────╮");
    assert_eq!(rows[4], "╰───────╯");
}

#[test]
fn colour_inside_does_not_widen_the_box() {
    let chrome = Chrome {
        border: Border::Square,
        ..Chrome::default()
    };
    let plain = drawn(&chrome, &["abcde"]);
    let painted = drawn(&chrome, &["\x1b[31mabcde\x1b[0m"]);
    assert_eq!(printed(&plain[0]), printed(&painted[0]));
}

#[test]
fn a_full_border_is_wider_than_the_content() {
    let hug = Chrome {
        border: Border::Square,
        ..Chrome::default()
    };
    let full = Chrome {
        border: Border::Square,
        fit: Fit::Full,
        ..Chrome::default()
    };
    let narrow = printed(&drawn(&hug, &["x"])[0]);
    let wide = printed(&drawn(&full, &["x"])[0]);
    assert!(wide > narrow, "full {wide} should exceed content {narrow}");
    assert_eq!(wide, COLS, "and reach the edge");
}

#[test]
fn centring_moves_every_row_together() {
    let chrome = Chrome {
        align_x: Place::Center,
        ..Chrome::default()
    };
    let rows = drawn(&chrome, &["aaa", "b"]);
    let lead = |row: &str| row.len() - row.trim_start().len();
    assert_eq!(lead(&rows[0]), lead(&rows[1]), "sheared: {rows:?}");
    assert!(lead(&rows[0]) > 0, "nothing moved: {rows:?}");
    assert_eq!(lead(&rows[0]), (COLS - 3) / 2);
}

#[test]
fn end_alignment_reaches_the_right_edge() {
    let chrome = Chrome {
        align_x: Place::End,
        ..Chrome::default()
    };
    let rows = drawn(&chrome, &["abc"]);
    assert_eq!(printed(&rows[0]), COLS);
}

#[test]
fn vertical_placement_needs_a_screen_of_its_own() {
    let inline = Chrome {
        align_y: Place::Center,
        ..Chrome::default()
    };
    assert_eq!(inline.top_margin(4, ROWS), 0, "inline must not add rows");

    let owned = Chrome {
        align_y: Place::Center,
        fullscreen: true,
        ..Chrome::default()
    };
    assert!(owned.top_margin(4, ROWS) > 0, "on its own screen it should");
    assert_eq!(owned.top_margin(4, ROWS), 10);
}

#[test]
fn a_tall_frame_is_not_pushed_off_the_screen() {
    let chrome = Chrome {
        align_y: Place::Center,
        fullscreen: true,
        ..Chrome::default()
    };
    assert_eq!(chrome.top_margin(ROWS + 50, ROWS), 0);
}

#[test]
fn a_border_and_a_placement_compose() {
    let chrome = Chrome {
        border: Border::Square,
        align_x: Place::Center,
        ..Chrome::default()
    };
    let rows = drawn(&chrome, &["hi"]);
    assert_eq!(rows.len(), 3);
    assert!(rows[0].trim_start().starts_with('┌'), "{rows:?}");
    assert!(rows[0].starts_with(' '), "it should have moved: {rows:?}");
}

#[test]
fn an_empty_frame_is_survivable() {
    let chrome = Chrome {
        border: Border::Square,
        ..Chrome::default()
    };
    let rows = drawn(&chrome, &[""]);
    assert_eq!(rows.len(), 3, "{rows:?}");
}

/// The legend is each key and what it does, joined by a bullet.
#[test]
fn the_legend_names_each_key() {
    assert_eq!(
        legend_text(&[("↑↓", "move"), ("enter", "choose")]),
        "↑↓ move • enter choose"
    );
    assert_eq!(legend_text(&[]), "");
}

/// The rule is a tear-off line with no trailing space, whatever the width.
#[test]
fn the_rule_never_ends_in_a_space() {
    let chrome = Chrome {
        legend_gap: 0,
        ..Chrome::default()
    };
    let rows = rows_of(&chrome.wrap(&frame(&["abcd"]), &[("q", "quit")], COLS));
    assert_eq!(rows, vec!["abcd  ", "- - - ", "q quit"]);
    let rows = rows_of(&chrome.wrap(&frame(&["abcd"]), &[("q", "quits")], COLS));
    assert_eq!(rows, vec!["abcd   ", "- - - -", "q quits"]);
}

#[test]
fn a_lone_line_feed_inside_a_row_keeps_the_row_count() {
    for chrome in [
        Chrome::default(),
        Chrome {
            border: Border::Rounded,
            padding_y: 1,
            ..Chrome::default()
        },
    ] {
        let content = ["a\nb", "\nc", "d\r"];
        let rows = rows_of(&chrome.wrap(&frame(&content), &[("q", "quit")], COLS));
        assert_eq!(rows.len(), content.len() + chrome.extra_rows(), "{chrome:?}");
    }
}

#[test]
fn a_legend_holding_a_row_break_is_read_back_as_two_rows() {
    let chrome = Chrome::default();
    let rows = rows_of(&chrome.wrap(&frame(&["a"]), &[("q\r\nx", "quit")], COLS));
    assert_eq!(rows.len(), 1 + chrome.extra_rows() + 1);
}
