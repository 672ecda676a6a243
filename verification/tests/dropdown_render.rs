use oslo::dropdown::width::{display_width, physical_rows};
use oslo::dropdown::MenuStep;
use oslo::dropdown::{
    matching_prefix, render_vertical_dropdown_at_width, render_vertical_dropdown_with, CompletionCandidate,
};
use oslo::settings::Completion;

/// Build a candidate with a kind.
fn kinded(display: &str, kind: &str, desc: Option<&str>) -> CompletionCandidate {
    CompletionCandidate {
        display: display.to_string(),
        replacement: display.to_string(),
        description: desc.map(str::to_string),
        kind: Some(kind.to_string()),
    }
}

/// Strip every escape, leaving what the user actually sees.
fn plain(text: &str) -> String {
    let mut out = String::new();
    let mut chars = text.chars();
    while let Some(c) = chars.next() {
        if c != '\x1b' {
            out.push(c);
            continue;
        }
        for c in chars.by_ref() {
            if c.is_ascii_alphabetic() {
                break;
            }
        }
    }
    out
}

fn cand(display: &str, desc: Option<&str>) -> CompletionCandidate {
    CompletionCandidate::new(
        display.to_string(),
        display.to_string(),
        desc.map(str::to_string),
    )
}

/// Visible width of every row the renderer emitted, indent included.
fn row_widths(rendered: &str) -> Vec<usize> {
    rendered
        .split("\r\n")
        .filter(|r| !r.is_empty())
        .map(display_width)
        .collect()
}

#[test]
fn a_candidate_without_a_kind_keeps_the_column_aligned() {
    let mut plainish = kinded("x", "file", Some("a file"));
    plainish.kind = None;
    let candidates = vec![kinded("y", "command", Some("a command")), plainish];
    let (rendered, _) = render_vertical_dropdown_at_width(&candidates, 0, 8, 0, 100, "");
    let seen = plain(&rendered);
    let rows: Vec<&str> = seen.lines().filter(|l| !l.trim().is_empty()).collect();
    assert_eq!(display_width(rows[0]), display_width(rows[1]), "{rows:?}");
}

#[test]
fn the_typed_prefix_is_highlighted_and_the_rest_is_not() {
    let candidates = vec![kinded("cargo", "command", None)];
    let (rendered, _) = render_vertical_dropdown_at_width(&candidates, 0, 8, 0, 100, "car");
    assert!(plain(&rendered).contains("cargo"), "{}", plain(&rendered));
    assert!(
        rendered.contains("car") && rendered.matches("go").count() >= 1,
        "prefix was not separated:\n{rendered}"
    );
}

#[test]
fn only_a_real_prefix_is_highlighted() {
    assert_eq!(matching_prefix("Cargo", "car"), 3);
    assert_eq!(matching_prefix("cargo", "CAR"), 3);
    assert_eq!(matching_prefix("cargo", "go"), 0);
    assert_eq!(matching_prefix("cargo", ""), 0);
    assert_eq!(matching_prefix("ca", "cargo"), 0);
    assert_eq!(matching_prefix("ändern", "än"), 3);
}

#[test]
fn no_row_exceeds_eighty_columns_with_a_deep_indent() {
    let candidates: Vec<_> = (0..6)
        .map(|i| {
            cand(
                &format!("some-quite-long-completion-candidate-number-{i}"),
                Some("a description long enough to blow past the right margin on its own"),
            )
        })
        .collect();
    let (rendered, lines) = render_vertical_dropdown_at_width(&candidates, 0, 8, 65, 80, "");
    for w in row_widths(&rendered) {
        assert!(w <= 80, "row of {w} cells overflows an 80-column terminal");
    }
    assert_eq!(lines, 6);
}

#[test]
fn every_row_is_the_same_width_so_the_box_lines_up() {
    let candidates = vec![
        cand("cargo", Some("Rust package manager")),
        cand("cd", Some("Change working directory")),
        cand("chmod", None),
    ];
    let (rendered, _) = render_vertical_dropdown_at_width(&candidates, 0, 8, 4, 80, "");
    let widths = row_widths(&rendered);
    assert_eq!(widths.len(), 3);
    assert!(
        widths.iter().all(|w| *w == widths[0]),
        "rows disagree: {widths:?}"
    );
}

#[test]
fn an_indent_wider_than_the_screen_does_not_push_rows_off_it() {
    let candidates = vec![cand("cargo", Some("Rust package manager")); 3];
    let (rendered, lines) = render_vertical_dropdown_at_width(&candidates, 0, 8, 200, 80, "");
    for w in row_widths(&rendered) {
        assert!(
            w <= 80,
            "row of {w} cells overflows: indent was not clamped"
        );
    }
    assert_eq!(lines, 3);
}

#[test]
fn long_labels_and_descriptions_are_ellipsised() {
    let candidates = vec![cand(
        "an-extremely-long-candidate-name-that-cannot-possibly-fit-in-any-box",
        Some("and a description that is likewise far too long to display in full"),
    )];
    let (rendered, _) = render_vertical_dropdown_at_width(&candidates, 0, 8, 0, 80, "");
    assert!(rendered.contains('…'), "nothing was ellipsised: {rendered}");
    for w in row_widths(&rendered) {
        assert!(w <= 80);
    }
}

#[test]
fn a_narrow_terminal_still_produces_rows_that_fit() {
    let candidates = vec![
        cand("cargo", Some("Rust package manager")),
        cand("cd", Some("Change working directory")),
    ];
    for cols in [20usize, 30, 40, 60, 100, 200] {
        let (rendered, lines) = render_vertical_dropdown_at_width(&candidates, 0, 8, 12, cols, "");
        for w in row_widths(&rendered) {
            assert!(w <= cols, "row of {w} cells at {cols} columns");
        }
        assert_eq!(lines, 2, "at {cols} columns");
    }
}

#[test]
fn wrapped_rows_are_counted_as_the_physical_rows_they_occupy() {
    let candidates = vec![cand("cargo", None); 2];
    let (rendered, lines) = render_vertical_dropdown_at_width(&candidates, 0, 8, 0, 4, "");
    let widths = row_widths(&rendered);
    let expected: usize = widths.iter().map(|w| physical_rows(*w, 4)).sum();
    assert_eq!(lines, expected);
    assert!(lines > widths.len(), "wrapping was not accounted for");
}

#[test]
fn the_menu_has_no_border_or_caption() {
    let candidates: Vec<_> = (0..20).map(|i| cand(&format!("cmd{i}"), None)).collect();
    let (rendered, lines) = render_vertical_dropdown_at_width(&candidates, 9, 8, 0, 80, "");
    for drawn in ['│', '╭', '╮', '╰', '╯', '─'] {
        assert!(!rendered.contains(drawn), "{drawn} survived: {rendered:?}");
    }
    assert!(!rendered.contains("Suggestions"), "{rendered:?}");
    assert!(!rendered.contains("Tab/Enter"), "{rendered:?}");
    assert_eq!(lines, 8);
    assert!(rendered.contains("cmd9"));
    assert!(!rendered.contains("cmd0 "));
}

#[test]
fn every_row_is_drawn_on_the_background() {
    let candidates = vec![cand("one", None), cand("two", None)];
    let (rendered, _) = render_vertical_dropdown_at_width(&candidates, 0, 8, 0, 80, "");
    assert!(rendered.contains("48;5;236"), "no background: {rendered:?}");
}

#[test]
fn empty_candidate_list_renders_nothing() {
    let (rendered, lines) = render_vertical_dropdown_at_width(&[], 0, 8, 0, 80, "");
    assert!(rendered.is_empty());
    assert_eq!(lines, 0);
}

#[test]
fn a_zero_max_visible_still_shows_one_row() {
    let candidates = vec![cand("cargo", None); 3];
    let (rendered, lines) = render_vertical_dropdown_at_width(&candidates, 0, 0, 0, 80, "");
    assert_eq!(lines, 1);
    assert!(rendered.contains("cargo"));
}

#[test]
fn the_selected_row_is_marked_and_painted_apart() {
    let candidates = vec![cand("one", None), cand("two", None)];
    let (rendered, _) = render_vertical_dropdown_at_width(&candidates, 1, 8, 0, 80, "");
    let rows: Vec<&str> = rendered.split("\r\n").filter(|r| !r.is_empty()).collect();
    assert_eq!(rows.len(), 2);
    assert!(!rows[0].contains('▶') && rows[0].contains("48;5;236"));
    assert!(rows[1].contains('▶') && rows[1].contains("48;5;62"));
}

#[test]
fn the_last_page_holds_what_is_left() {
    let candidates: Vec<_> = (0..10).map(|i| cand(&format!("c{i}"), None)).collect();
    let (rendered, lines) = render_vertical_dropdown_at_width(&candidates, 9, 4, 0, 80, "");
    assert_eq!(lines, 2);
    assert!(rendered.contains("c8") && rendered.contains("c9"));
    assert!(!rendered.contains("c7"));
}

#[test]
fn a_zero_width_terminal_is_read_as_eighty_columns() {
    let candidates = vec![cand("cargo", Some("Rust package manager"))];
    assert_eq!(
        render_vertical_dropdown_at_width(&candidates, 0, 8, 3, 0, "ca"),
        render_vertical_dropdown_at_width(&candidates, 0, 8, 3, 80, "ca")
    );
}

fn menu(n: usize) -> oslo::dropdown::DropdownMenu {
    let candidates: Vec<_> = (0..n).map(|i| cand(&format!("c{i}"), None)).collect();
    oslo::dropdown::DropdownMenu::new(candidates, 0)
}

#[test]
fn tab_and_the_arrows_move_the_selection_round() {
    let mut m = menu(3);
    assert_eq!(m.step(&[9]), MenuStep::Moved);
    assert_eq!(m.selected_index, 1);
    assert_eq!(m.step(b"\x1b[B"), MenuStep::Moved);
    assert_eq!(m.selected_index, 2);
    assert_eq!(m.step(b"\x1b[B"), MenuStep::Moved);
    assert_eq!(m.selected_index, 0);
    assert_eq!(m.step(b"\x1b[A"), MenuStep::Moved);
    assert_eq!(m.selected_index, 2);
}

#[test]
fn enter_picks_and_anything_else_closes() {
    let mut m = menu(3);
    m.step(&[9]);
    assert_eq!(m.step(&[13]), MenuStep::Pick(1));
    assert_eq!(m.step(&[32]), MenuStep::Pick(1));
    assert_eq!(m.step(&[27]), MenuStep::Close);
    assert_eq!(m.step(&[]), MenuStep::Close);
    assert_eq!(m.step(b"\x1b[C"), MenuStep::Close);
    assert_eq!(m.step(b"xy"), MenuStep::Close);
    assert_eq!(m.selected_index, 1);
}

#[test]
fn the_kind_is_drawn_as_a_badge() {
    let candidates = vec![
        kinded("cargo", "command", Some("Rust package manager")),
        kinded("src", "dir", None),
    ];
    let (rendered, _) = render_vertical_dropdown_at_width(&candidates, 0, 8, 0, 100, "");
    let seen = plain(&rendered);
    assert!(seen.contains("command"), "no command badge in:\n{seen}");
    assert!(seen.contains("dir"), "no dir badge in:\n{seen}");
    assert!(!seen.contains('📁'), "an icon survived:\n{seen}");
    assert!(!seen.contains('⚙'), "an icon survived:\n{seen}");
}

#[test]
fn badges_line_up_into_a_column() {
    let candidates = vec![kinded("a", "dir", None), kinded("bbbbbb", "variable", None)];
    let (rendered, _) = render_vertical_dropdown_at_width(&candidates, 0, 8, 0, 100, "");
    let seen = plain(&rendered);
    let rows: Vec<&str> = seen.lines().filter(|l| !l.trim().is_empty()).collect();
    assert_eq!(rows.len(), 2, "{rows:?}");
    let at = |row: &str, needle: &str| row.find(needle);
    assert_eq!(at(rows[0], "dir").map(|i| i > 0), Some(true), "{rows:?}");
    assert_eq!(
        display_width(rows[0]),
        display_width(rows[1]),
        "rows differ in width:\n{rows:?}"
    );
}

#[test]
fn a_badge_is_a_pill_as_wide_as_the_widest_word() {
    let candidates = vec![kinded("a", "dir", None), kinded("b", "variable", None)];
    let (rendered, _) = render_vertical_dropdown_at_width(&candidates, 0, 8, 0, 100, "");
    let seen = plain(&rendered);
    assert!(seen.contains(" dir      "), "{seen:?}");
    assert!(seen.contains(" variable "), "{seen:?}");
    assert!(rendered.contains("\x1b[1;30;48;5;110m variable \x1b[0m"), "{rendered:?}");
}

#[test]
fn an_unknown_kind_is_shown_and_a_long_one_is_cut() {
    let candidates = vec![kinded("a", "supercalifragilistic", None), kinded("b", "flag", None)];
    let (rendered, _) = render_vertical_dropdown_at_width(&candidates, 0, 8, 0, 100, "");
    let seen = plain(&rendered);
    assert!(seen.contains(" superca… "), "{seen:?}");
    assert!(seen.contains(" option   "), "{seen:?}");
}

#[test]
fn badges_are_left_out_when_the_settings_say_so() {
    let candidates = vec![kinded("cargo", "command", Some("Rust package manager"))];
    let mut settings = Completion::default();
    settings.show_kind = false;
    let (rendered, lines) = render_vertical_dropdown_with(&candidates, 0, 8, 0, 100, "", &settings);
    let seen = plain(&rendered);
    assert!(!seen.contains("command"), "{seen:?}");
    assert!(seen.contains("Rust package manager"), "{seen:?}");
    assert_eq!(lines, 1);
}

#[test]
fn descriptions_are_left_out_when_the_settings_say_so() {
    let candidates = vec![kinded("cargo", "command", Some("Rust package manager"))];
    let mut settings = Completion::default();
    settings.descriptions = false;
    let (rendered, _) = render_vertical_dropdown_with(&candidates, 0, 8, 0, 100, "", &settings);
    let seen = plain(&rendered);
    assert!(seen.contains("command"), "{seen:?}");
    assert!(!seen.contains("Rust package manager"), "{seen:?}");
}

#[test]
fn the_default_settings_draw_what_the_plain_render_draws() {
    let candidates = vec![kinded("cargo", "command", Some("Rust package manager")), cand("cd", None)];
    assert_eq!(
        render_vertical_dropdown_with(&candidates, 1, 8, 2, 60, "c", &Completion::default()),
        render_vertical_dropdown_at_width(&candidates, 1, 8, 2, 60, "c")
    );
}

#[test]
fn a_row_with_a_badge_is_its_columns_and_the_gaps_between() {
    // Marker 3, label 12, gap 1, badge 9, gap 2, description 25, closing cell 1.
    let candidates = vec![kinded("cargo", "command", Some("Rust package manager"))];
    let (rendered, lines) = render_vertical_dropdown_at_width(&candidates, 0, 8, 0, 100, "");
    assert_eq!(row_widths(&rendered), vec![53]);
    assert_eq!(lines, 1);
}

#[test]
fn rows_are_as_wide_as_the_layout_whatever_is_selected_or_typed() {
    // Marker 3, label 12, gap 1, badge 9, gap 2, description 25, closing cell 1, indent 2.
    let candidates = vec![
        kinded("cargo", "command", Some("Rust package manager")),
        kinded("cd", "builtin", None),
        cand("chmod", Some("Change file modes")),
    ];
    for typed in ["", "c", "CA", "x"] {
        let (rendered, lines) = render_vertical_dropdown_at_width(&candidates, 1, 8, 2, 100, typed);
        assert_eq!(row_widths(&rendered), vec![55, 55, 55], "typed {typed:?}");
        assert_eq!(lines, 3);
    }
}
